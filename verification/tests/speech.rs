use osap_host::speech::avspeech::{engines_on_macos, personal_count, personal_voices_seen, PersonalVoice, Voice};
use osap_host::speech::engines::{Choices, Engine};

fn engine(id: &str, screen_reader: bool, available: bool) -> Engine {
    Engine { id: id.to_string(), name: id.to_uppercase(), screen_reader, available }
}

/// Choosing is honest about what it can honour: something this machine does not have is
/// refused rather than accepted and ignored, and a choice belongs to the VM that made it.
#[test]
fn a_module_can_choose_what_speaks_for_it() {
    let engines = vec![engine("nvda", true, false), engine("sapi", false, true), engine("onecore", false, false)];
    let mut speech = Choices::new();
    const ME: usize = 7;
    const SOMEBODY_ELSE: usize = 8;

    assert_eq!(speech.chosen_engine(ME), None, "a module starts with no choice");

    let absent = engines.iter().find(|e| !e.available).map(|e| e.id.clone());
    if let Some(absent) = absent {
        assert!(!speech.use_engine(ME, Some(&absent), &engines), "accepted {absent}, which is not here");
        assert_eq!(speech.chosen_engine(ME), None, "a refused choice was remembered anyway");
    }
    assert!(!speech.use_engine(ME, Some("no-such-engine"), &engines), "accepted a name that does not exist");

    let present = engines
        .iter()
        .find(|e| e.available && !e.screen_reader)
        .expect("no plain voice available")
        .id
        .clone();
    assert!(speech.use_engine(ME, Some(&present), &engines), "refused {present}, which is here");
    assert_eq!(speech.chosen_engine(ME), Some(present.clone()));
    assert_eq!(speech.chosen_engine(SOMEBODY_ELSE), None, "one module's choice reached another");

    assert!(speech.use_engine(ME, None, &engines), "could not go back to the ordinary path");
    assert_eq!(speech.chosen_engine(ME), None);
}

#[test]
fn only_a_refusal_or_an_unsupported_mac_is_explained() {
    assert_eq!(PersonalVoice::Granted.explanation(Some(2)), None);
    assert_eq!(PersonalVoice::NotAsked.explanation(None), None);
    let unsupported = PersonalVoice::Unsupported.explanation(None).unwrap();
    assert!(unsupported.contains("it needs macOS 14 on a Mac with Apple silicon"), "{unsupported}");
    let before = PersonalVoice::Denied.explanation(None).unwrap();
    assert!(before.starts_with("macOS answered 'denied' without showing a dialog."), "{before}");
    assert!(!before.contains("Right now"), "no count before the voices were read: {before}");
    assert!(
        before.ends_with("has nothing to switch on. If you have one and the switch is on, quit this application, open it again and tick this setting once more."),
        "{before}"
    );
    let none = PersonalVoice::Denied.explanation(Some(0)).unwrap();
    assert!(none.contains(" Right now this application can see no Personal Voice, which settles nothing"), "{none}");
    let one = PersonalVoice::Denied.explanation(Some(1)).unwrap();
    assert!(one.contains(" Right now this application can see one Personal Voice. If you have one"), "{one}");
    let three = PersonalVoice::Denied.explanation(Some(3)).unwrap();
    assert!(three.contains(" Right now this application can see 3 Personal Voices. If you have one"), "{three}");
}

#[test]
fn the_count_is_unknown_until_the_voices_were_read() {
    assert_eq!(personal_voices_seen(usize::MAX), None);
    assert_eq!(personal_voices_seen(0), Some(0));
    assert_eq!(personal_voices_seen(4), Some(4));
    let voices = vec![
        Voice { id: "a".into(), name: "A".into(), personal: false },
        Voice { id: "me".into(), name: "Me".into(), personal: true },
    ];
    assert_eq!(personal_count(&voices), 1);
}

#[test]
fn voiceover_comes_first_then_every_voice() {
    let voices = vec![
        Voice { id: "com.apple.voice.compact.en-GB.Daniel".into(), name: "Daniel".into(), personal: false },
        Voice { id: "personal.1".into(), name: "Me".into(), personal: true },
    ];
    let list = engines_on_macos(false, &voices);
    assert_eq!(
        list,
        vec![
            Engine { id: "voiceover".into(), name: "VoiceOver".into(), screen_reader: true, available: false },
            Engine { id: "com.apple.voice.compact.en-GB.Daniel".into(), name: "Daniel".into(), screen_reader: false, available: true },
            Engine { id: "personal.1".into(), name: "Me".into(), screen_reader: false, available: true },
        ]
    );
    assert!(engines_on_macos(true, &[])[0].available, "VoiceOver can speak while it runs");
}
