//! The installed modules as a dependency graph, and what the module manager says about them.
//!
//! A graph is a list of (module id, the ids it declares as dependencies), built from the
//! installed list. From it: who depends on a module, transitively (an uninstall must take
//! them first); the order they are rebuilt in when it changes, each after its own
//! dependencies; and which modules an uninstall leaves needed by nothing.
pub mod review;
pub mod install;
pub mod plan;

use vstd::prelude::*;

use vstd::string::{StrSliceExecFns, StringExecFns};

use crate::text::{
    chars_of, control, debug_quoted, debug_text, is_control, is_white, joined, push_char, same_text, string_of, trim,
    lemma_trim_end_len, trim_end, trim_start, trimmed, white,
};
use std::path::PathBuf;

verus! {

/// A graph as plain text: each module's id and the ids it depends on.
pub type GraphView = Seq<(Seq<char>, Seq<Seq<char>>)>;

/// The texts of `v`.
pub open spec fn texts(v: Seq<String>) -> Seq<Seq<char>> {
    v.map_values(|s: String| s@)
}

/// `graph` as plain text.
pub open spec fn graph_view(graph: Seq<(String, Vec<String>)>) -> GraphView {
    graph.map_values(|e: (String, Vec<String>)| (e.0@, texts(e.1@)))
}

/// Module `a` declares `b` as a dependency (in one of its entries).
pub open spec fn depends(g: GraphView, a: Seq<char>, b: Seq<char>) -> bool {
    exists|i: int| 0 <= i < g.len() && (#[trigger] g[i]).0 == a && g[i].1.contains(b)
}

/// `p` is a chain of at least two modules, each depending on the next.
pub open spec fn dep_chain(g: GraphView, p: Seq<Seq<char>>) -> bool {
    &&& p.len() >= 2
    &&& forall|k: int| 0 <= k < p.len() - 1 ==> depends(g, #[trigger] p[k], p[k + 1])
}

/// Module `a` depends on `b`, directly or through others.
pub open spec fn reaches(g: GraphView, a: Seq<char>, b: Seq<char>) -> bool {
    exists|p: Seq<Seq<char>>| #[trigger] dep_chain(g, p) && p[0] == a && p.last() == b
}

/// No text occurs twice in `s`.
pub open spec fn no_repeats(s: Seq<Seq<char>>) -> bool {
    forall|p: int, q: int| 0 <= p < q < s.len() ==> #[trigger] s[p] != #[trigger] s[q]
}

/// How many entries of `g` have an id outside `s`.
pub open spec fn unseen(g: GraphView, s: Seq<Seq<char>>) -> nat
    decreases g.len(),
{
    if g.len() == 0 {
        0
    } else {
        unseen(g.drop_last(), s) + if s.contains(g.last().0) {
            0nat
        } else {
            1nat
        }
    }
}

proof fn lemma_unseen_push(g: GraphView, s: Seq<Seq<char>>, x: Seq<char>)
    ensures
        unseen(g, s.push(x)) <= unseen(g, s),
        !s.contains(x) && (exists|j: int| 0 <= j < g.len() && (#[trigger] g[j]).0 == x) ==> unseen(
            g,
            s.push(x),
        ) < unseen(g, s),
    decreases g.len(),
{
    if g.len() > 0 {
        lemma_unseen_push(g.drop_last(), s, x);
        let t = s.push(x);
        assert(s.contains(g.last().0) ==> t.contains(g.last().0)) by {
            if s.contains(g.last().0) {
                let k = choose|k: int| 0 <= k < s.len() && s[k] == g.last().0;
                assert(t[k] == s[k]);
            }
        }
        if !s.contains(x) && (exists|j: int| 0 <= j < g.len() && (#[trigger] g[j]).0 == x) {
            let j = choose|j: int| 0 <= j < g.len() && (#[trigger] g[j]).0 == x;
            if j < g.len() - 1 {
                assert(g.drop_last()[j] == g[j]);
            } else {
                assert(t[s.len() as int] == x);
            }
        }
    }
}

/// A module that depends on `x`, where `x` is `b` or reaches it, reaches `b`.
proof fn lemma_reach_extend(g: GraphView, m: Seq<char>, x: Seq<char>, b: Seq<char>)
    requires
        depends(g, m, x),
        x == b || reaches(g, x, b),
    ensures
        reaches(g, m, b),
{
    if x == b {
        let p = seq![m, x];
        assert(dep_chain(g, p));
    } else {
        let p = choose|p: Seq<Seq<char>>| #[trigger] dep_chain(g, p) && p[0] == x && p.last() == b;
        let q = seq![m] + p;
        assert forall|k: int| 0 <= k < q.len() - 1 implies depends(g, #[trigger] q[k], q[k + 1]) by {
            if k > 0 {
                assert(q[k] == p[k - 1] && q[k + 1] == p[k]);
            }
        }
        assert(dep_chain(g, q));
        assert(q.last() == p.last());
    }
}

/// With every module depending on a finished one listed, and every listed one finished, each
/// module on a chain ending at a finished one is listed.
proof fn lemma_closed(g: GraphView, out: Seq<Seq<char>>, done: Seq<Seq<char>>, p: Seq<Seq<char>>, k: int)
    requires
        dep_chain(g, p),
        done.contains(p.last()),
        forall|x: Seq<char>, i: int|
            done.contains(x) && 0 <= i < g.len() && #[trigger] g[i].1.contains(x) ==> out.contains(g[i].0),
        forall|m: Seq<char>| out.contains(m) ==> done.contains(m),
        0 <= k < p.len() - 1,
    ensures
        out.contains(p[k]),
    decreases p.len() - k,
{
    if k + 1 < p.len() - 1 {
        lemma_closed(g, out, done, p, k + 1);
    }
    assert(depends(g, p[k], p[k + 1]));
    let i = choose|i: int| 0 <= i < g.len() && (#[trigger] g[i]).0 == p[k] && g[i].1.contains(p[k + 1]);
    assert(done.contains(p[k + 1]));
}

/// Whether `v` holds the text `s`.
fn holds(v: &Vec<String>, s: &String) -> (r: bool)
    ensures
        r == texts(v@).contains(s@),
{
    let ghost t = texts(v@);
    let mut i: usize = 0;
    while i < v.len()
        invariant
            i <= v@.len(),
            t == texts(v@),
            forall|j: int| 0 <= j < i ==> t[j] != s@,
        decreases v@.len() - i,
    {
        if v[i] == *s {
            assert(t[i as int] == s@);
            return true;
        }
        i += 1;
    }
    false
}

/// Module ids that depend on `id`, directly or through others: removing `id` would break
/// them, so they go first (or block the uninstall). Each once.
#[verifier::spinoff_prover]
pub fn transitive_dependents(id: &str, graph: &[(String, Vec<String>)]) -> (out: Vec<String>)
    ensures
        no_repeats(texts(out@)),
        forall|m: Seq<char>| texts(out@).contains(m) <==> reaches(graph_view(graph@), m, id@),
{
    let ghost g = graph_view(graph@);
    let ghost idv = id@;
    let mut out: Vec<String> = Vec::new();
    let mut stack: Vec<String> = Vec::new();
    stack.push(<String as StringExecFns>::from_str(id));
    let ghost mut done: Seq<Seq<char>> = Seq::empty();
    assert(texts(stack@)[0] == idv);
    while stack.len() > 0
        invariant
            g == graph_view(graph@),
            no_repeats(texts(out@)),
            forall|m: Seq<char>| texts(out@).contains(m) ==> reaches(g, m, idv),
            forall|x: Seq<char>| texts(stack@).contains(x) ==> x == idv || texts(out@).contains(x),
            forall|x: Seq<char>| done.contains(x) ==> x == idv || texts(out@).contains(x),
            forall|x: Seq<char>, i: int|
                done.contains(x) && 0 <= i < g.len() && #[trigger] g[i].1.contains(x) ==> texts(out@).contains(g[i].0),
            forall|m: Seq<char>| texts(out@).contains(m) ==> done.contains(m) || texts(stack@).contains(m),
            done.contains(idv) || texts(stack@).contains(idv),
        decreases stack@.len() + unseen(g, texts(out@)),
    {
        let ghost out0 = texts(out@);
        let ghost st0 = texts(stack@);
        let cur = stack.pop().unwrap();
        proof {
            assert(texts(stack@) =~= st0.drop_last());
            assert(st0.last() == cur@);
            assert(st0.contains(cur@));
            assert forall|x: Seq<char>| texts(stack@).contains(x) implies st0.contains(x) by {
                let k = choose|k: int| 0 <= k < texts(stack@).len() && texts(stack@)[k] == x;
                assert(st0[k] == x);
            }
            assert forall|m: Seq<char>| texts(out@).contains(m) implies done.contains(m) || texts(stack@).contains(m) || m == cur@ by {
                if st0.contains(m) && !texts(stack@).contains(m) {
                    let k = choose|k: int| 0 <= k < st0.len() && st0[k] == m;
                    if k < st0.len() - 1 {
                        assert(texts(stack@)[k] == m);
                    }
                }
            }
            if !done.contains(idv) && !texts(stack@).contains(idv) {
                let k = choose|k: int| 0 <= k < st0.len() && st0[k] == idv;
                if k < st0.len() - 1 {
                    assert(texts(stack@)[k] == idv);
                }
            }
        }
        let mut i: usize = 0;
        while i < graph.len()
            invariant
                g == graph_view(graph@),
                i <= graph@.len(),
                no_repeats(texts(out@)),
                forall|m: Seq<char>| texts(out@).contains(m) ==> reaches(g, m, idv),
                cur@ == idv || reaches(g, cur@, idv),
                cur@ == idv || texts(out@).contains(cur@),
                forall|x: Seq<char>| texts(stack@).contains(x) ==> x == idv || texts(out@).contains(x),
                forall|x: Seq<char>| done.contains(x) ==> x == idv || texts(out@).contains(x),
                forall|m: Seq<char>| out0.contains(m) ==> texts(out@).contains(m),
                forall|x: Seq<char>, j: int|
                    done.contains(x) && 0 <= j < g.len() && #[trigger] g[j].1.contains(x) ==> texts(out@).contains(g[j].0),
                forall|j: int| 0 <= j < i && (#[trigger] g[j]).1.contains(cur@) ==> texts(out@).contains(g[j].0),
                forall|m: Seq<char>| texts(out@).contains(m) ==> done.contains(m) || texts(stack@).contains(m) || m == cur@,
                done.contains(idv) || texts(stack@).contains(idv) || cur@ == idv,
                stack@.len() + unseen(g, texts(out@)) <= st0.len() - 1 + unseen(g, out0),
            decreases graph@.len() - i,
        {
            assert(g[i as int] == (graph@[i as int].0@, texts(graph@[i as int].1@)));
            if holds(&graph[i].1, &cur) && !holds(&out, &graph[i].0) {
                let ghost o1 = texts(out@);
                let ghost s1 = texts(stack@);
                let mid = graph[i].0.clone();
                proof {
                    lemma_unseen_push(g, o1, mid@);
                    assert(depends(g, mid@, cur@));
                    lemma_reach_extend(g, mid@, cur@, idv);
                }
                out.push(mid.clone());
                stack.push(mid);
                proof {
                    assert(texts(out@) =~= o1.push(g[i as int].0));
                    assert(texts(stack@) =~= s1.push(g[i as int].0));
                    assert forall|m: Seq<char>| o1.contains(m) implies texts(out@).contains(m) by {
                        let k = choose|k: int| 0 <= k < o1.len() && o1[k] == m;
                        assert(texts(out@)[k] == m);
                    }
                    assert(texts(out@)[o1.len() as int] == g[i as int].0);
                    assert(texts(stack@)[s1.len() as int] == g[i as int].0);
                    assert forall|x: Seq<char>| s1.contains(x) implies texts(stack@).contains(x) by {
                        let k = choose|k: int| 0 <= k < s1.len() && s1[k] == x;
                        assert(texts(stack@)[k] == x);
                    }
                    assert forall|x: Seq<char>| texts(stack@).contains(x) implies x == idv || texts(out@).contains(x) by {
                        let k = choose|k: int| 0 <= k < texts(stack@).len() && texts(stack@)[k] == x;
                        if k < s1.len() {
                            assert(s1[k] == x);
                            assert(s1.contains(x));
                            if x != idv {
                                assert(o1.contains(x));
                            }
                        } else {
                            assert(texts(out@)[o1.len() as int] == x);
                        }
                    }
                    assert forall|m: Seq<char>| texts(out@).contains(m) implies reaches(g, m, idv) by {
                        let k = choose|k: int| 0 <= k < texts(out@).len() && texts(out@)[k] == m;
                        if k < o1.len() {
                            assert(o1[k] == m);
                        }
                    }
                    assert forall|m: Seq<char>| texts(out@).contains(m) implies done.contains(m) || texts(stack@).contains(m) || m == cur@ by {
                        let k = choose|k: int| 0 <= k < texts(out@).len() && texts(out@)[k] == m;
                        if k < o1.len() {
                            assert(o1[k] == m);
                        }
                    }
                    assert forall|p: int, q: int| 0 <= p < q < texts(out@).len() implies #[trigger] texts(out@)[p] != #[trigger] texts(out@)[q] by {
                        if q == o1.len() {
                            assert(texts(out@)[p] == o1[p]);
                        } else {
                            assert(texts(out@)[p] == o1[p] && texts(out@)[q] == o1[q]);
                        }
                    }
                }
            }
            i += 1;
        }
        proof {
            let ghost d0 = done;
            done = done.push(cur@);
            assert(done.drop_last() =~= d0);
            assert(done.last() == cur@);
            assert forall|x: Seq<char>, j: int|
                done.contains(x) && 0 <= j < g.len() && #[trigger] g[j].1.contains(x) implies texts(out@).contains(g[j].0) by {
                let k = choose|k: int| 0 <= k < done.len() && done[k] == x;
                if k < done.len() - 1 {
                    assert(done.drop_last()[k] == x);
                    assert(done.drop_last().contains(x));
                }
            }
            assert forall|x: Seq<char>| done.contains(x) implies x == idv || texts(out@).contains(x) by {
                let k = choose|k: int| 0 <= k < done.len() && done[k] == x;
                if k < done.len() - 1 {
                    assert(d0[k] == x);
                    assert(d0.contains(x));
                } else {
                    assert(x == cur@);
                }
            }
            assert forall|m: Seq<char>| texts(out@).contains(m) implies done.contains(m) || texts(stack@).contains(m) by {
                if m == cur@ {
                    assert(done[done.len() - 1] == m);
                } else if d0.contains(m) {
                    let k = choose|k: int| 0 <= k < d0.len() && d0[k] == m;
                    assert(done[k] == m);
                }
            }
            if done.drop_last().contains(idv) {
                let k = choose|k: int| 0 <= k < done.drop_last().len() && done.drop_last()[k] == idv;
                assert(done[k] == idv);
            }
            if cur@ == idv {
                assert(done[done.len() - 1] == idv);
            }
        }
    }
    proof {
        assert forall|m: Seq<char>| reaches(g, m, idv) implies texts(out@).contains(m) by {
            let p = choose|p: Seq<Seq<char>>| #[trigger] dep_chain(g, p) && p[0] == m && p.last() == idv;
            lemma_closed(g, texts(out@), done, p, 0);
        }
    }
    out
}


/// The first entry of `g` for module `m` at or after entry `i`.
pub open spec fn entry_from(g: GraphView, m: Seq<char>, i: int) -> Option<int>
    decreases g.len() - i,
{
    if i < 0 || i >= g.len() {
        None
    } else if g[i].0 == m {
        Some(i)
    } else {
        entry_from(g, m, i + 1)
    }
}

/// The first entry of `g` for module `m`.
pub open spec fn first_entry(g: GraphView, m: Seq<char>) -> Option<int> {
    entry_from(g, m, 0)
}

proof fn lemma_entry_from(g: GraphView, m: Seq<char>, i: int)
    requires
        0 <= i,
    ensures
        match entry_from(g, m, i) {
            Some(j) => i <= j < g.len() && g[j].0 == m,
            None => true,
        },
    decreases g.len() - i,
{
    if i < g.len() && g[i].0 != m {
        lemma_entry_from(g, m, i + 1);
    }
}

/// What the first entry of `g` for module `m` declares (nothing, without an entry).
pub open spec fn entry_deps(g: GraphView, m: Seq<char>) -> Seq<Seq<char>> {
    match first_entry(g, m) {
        Some(i) => g[i].1,
        None => Seq::empty(),
    }
}

/// Module `m` can be rebuilt after `done`: every dependency its first entry declares that is
/// in `list` is in `done`.
pub open spec fn ready(g: GraphView, list: Seq<Seq<char>>, done: Seq<Seq<char>>, m: Seq<char>) -> bool {
    forall|d: Seq<char>| #[trigger] entry_deps(g, m).contains(d) ==> !list.contains(d) || done.contains(d)
}

/// One pass over `rem`, in order: each module that is ready after `done` and those placed
/// before it in the pass is placed; the others stay, in order. (placed so far, still waiting)
pub open spec fn pass(g: GraphView, list: Seq<Seq<char>>, done: Seq<Seq<char>>, rem: Seq<Seq<char>>) -> (Seq<Seq<char>>, Seq<Seq<char>>)
    decreases rem.len(),
{
    if rem.len() == 0 {
        (done, Seq::empty())
    } else if ready(g, list, done, rem[0]) {
        pass(g, list, done.push(rem[0]), rem.drop_first())
    } else {
        let r = pass(g, list, done, rem.drop_first());
        (r.0, seq![rem[0]] + r.1)
    }
}

/// Passes until every module is placed, or a pass places none (a cycle), whose modules then
/// follow in the order they were found.
pub open spec fn rounds(g: GraphView, list: Seq<Seq<char>>, done: Seq<Seq<char>>, rem: Seq<Seq<char>>) -> Seq<Seq<char>>
    decreases rem.len(),
{
    if rem.len() == 0 {
        done
    } else {
        let r = pass(g, list, done, rem);
        if r.1.len() >= rem.len() {
            done + r.1
        } else {
            rounds(g, list, r.0, r.1)
        }
    }
}

proof fn lemma_pass_step(g: GraphView, list: Seq<Seq<char>>, done: Seq<Seq<char>>, rem: Seq<Seq<char>>)
    requires
        rem.len() > 0,
    ensures
        ready(g, list, done, rem[0]) ==> pass(g, list, done, rem) == pass(g, list, done.push(rem[0]), rem.drop_first()),
        !ready(g, list, done, rem[0]) ==> pass(g, list, done, rem) == (
            pass(g, list, done, rem.drop_first()).0,
            seq![rem[0]] + pass(g, list, done, rem.drop_first()).1,
        ),
{
}

proof fn lemma_pass_len(g: GraphView, list: Seq<Seq<char>>, done: Seq<Seq<char>>, rem: Seq<Seq<char>>)
    ensures
        pass(g, list, done, rem).0.len() + pass(g, list, done, rem).1.len() == done.len() + rem.len(),
        pass(g, list, done, rem).0.len() >= done.len(),
        pass(g, list, done, rem).0.subrange(0, done.len() as int) == done,
    decreases rem.len(),
{
    if rem.len() > 0 {
        lemma_pass_len(g, list, done.push(rem[0]), rem.drop_first());
        lemma_pass_len(g, list, done, rem.drop_first());
        let p = pass(g, list, done.push(rem[0]), rem.drop_first()).0;
        assert(p.subrange(0, done.len() as int) =~= done.push(rem[0]).subrange(0, done.len() as int));
        assert(done.push(rem[0]).subrange(0, done.len() as int) =~= done);
    }
}

/// Each module of `s` can be rebuilt after the ones before it.
pub open spec fn in_dependency_order(g: GraphView, list: Seq<Seq<char>>, s: Seq<Seq<char>>) -> bool {
    forall|j: int| 0 <= j < s.len() ==> ready(g, list, s.take(j), #[trigger] s[j])
}

proof fn lemma_pass_props(g: GraphView, list: Seq<Seq<char>>, done: Seq<Seq<char>>, rem: Seq<Seq<char>>)
    requires
        in_dependency_order(g, list, done),
    ensures
        (pass(g, list, done, rem).0 + pass(g, list, done, rem).1).to_multiset() == (done + rem).to_multiset(),
        in_dependency_order(g, list, pass(g, list, done, rem).0),
        pass(g, list, done, rem).0.len() == done.len() ==> pass(g, list, done, rem).1 == rem && forall|j: int|
            0 <= j < rem.len() ==> !ready(g, list, done, #[trigger] rem[j]),
    decreases rem.len(),
{
    broadcast use vstd::seq_lib::lemma_multiset_commutative;
    lemma_pass_len(g, list, done, rem);
    if rem.len() == 0 {
        assert(done + rem =~= done);
        assert(pass(g, list, done, rem).0 + pass(g, list, done, rem).1 =~= done);
    } else {
        let r = rem[0];
        let rest = rem.drop_first();
        if ready(g, list, done, r) {
            let d1 = done.push(r);
            assert forall|j: int| 0 <= j < d1.len() implies ready(g, list, d1.take(j), #[trigger] d1[j]) by {
                if j < done.len() {
                    assert(d1.take(j) =~= done.take(j));
                } else {
                    assert(d1.take(j) =~= done);
                }
            }
            lemma_pass_props(g, list, d1, rest);
            lemma_pass_len(g, list, d1, rest);
            assert(d1 + rest =~= done + rem);
        } else {
            lemma_pass_props(g, list, done, rest);
            lemma_pass_len(g, list, done, rest);
            let r1 = pass(g, list, done, rest);
            let one = seq![r];
            assert((r1.0 + (one + r1.1)).to_multiset() =~= r1.0.to_multiset().add(one.to_multiset().add(r1.1.to_multiset())));
            assert((r1.0 + r1.1).to_multiset() =~= r1.0.to_multiset().add(r1.1.to_multiset()));
            assert(rem =~= one + rest);
            assert((done + (one + rest)).to_multiset() =~= done.to_multiset().add(one.to_multiset().add(rest.to_multiset())));
            assert((done + rest).to_multiset() =~= done.to_multiset().add(rest.to_multiset()));
            assert((r1.0 + (one + r1.1)).to_multiset() =~= (done + rem).to_multiset()) by {
                broadcast use vstd::multiset::group_multiset_axioms;
                assert(r1.0.to_multiset().add(r1.1.to_multiset()) =~= done.to_multiset().add(rest.to_multiset()));
                assert forall|x: Seq<char>| #[trigger] (r1.0 + (one + r1.1)).to_multiset().count(x) == (done + rem).to_multiset().count(x) by {
                    assert(r1.0.to_multiset().add(r1.1.to_multiset()).count(x) == done.to_multiset().add(rest.to_multiset()).count(x));
                }
            }
            if r1.0.len() == done.len() {
                assert(pass(g, list, done, rem).1 =~= rem);
                assert forall|j: int| 0 <= j < rem.len() implies !ready(g, list, done, #[trigger] rem[j]) by {
                    if j > 0 {
                        assert(rem[j] == rest[j - 1]);
                    }
                }
            }
        }
    }
}

proof fn lemma_rounds_props(g: GraphView, list: Seq<Seq<char>>, done: Seq<Seq<char>>, rem: Seq<Seq<char>>)
    requires
        in_dependency_order(g, list, done),
    ensures
        rounds(g, list, done, rem).to_multiset() == (done + rem).to_multiset(),
        exists|k: int|
            done.len() <= k <= rounds(g, list, done, rem).len() && in_dependency_order(
                g,
                list,
                #[trigger] rounds(g, list, done, rem).take(k),
            ) && forall|j: int|
                k <= j < rounds(g, list, done, rem).len() ==> !ready(
                    g,
                    list,
                    rounds(g, list, done, rem).take(k),
                    #[trigger] rounds(g, list, done, rem)[j],
                ),
    decreases rem.len(),
{
    let out = rounds(g, list, done, rem);
    if rem.len() == 0 {
        assert(done + rem =~= done);
        assert(out.take(done.len() as int) =~= done);
    } else {
        let r = pass(g, list, done, rem);
        lemma_pass_props(g, list, done, rem);
        lemma_pass_len(g, list, done, rem);
        if r.1.len() >= rem.len() {
            assert(r.0.subrange(0, done.len() as int) == done);
            assert(r.0 =~= done);
            let k = done.len() as int;
            assert(out.take(k) =~= done);
            assert forall|j: int| k <= j < out.len() implies !ready(g, list, out.take(k), #[trigger] out[j]) by {
                assert(out[j] == rem[j - k]);
            }
        } else {
            lemma_rounds_props(g, list, r.0, r.1);
            let k = choose|k: int|
                r.0.len() <= k <= out.len() && in_dependency_order(g, list, #[trigger] out.take(k))
                    && forall|j: int| k <= j < out.len() ==> !ready(g, list, out.take(k), #[trigger] out[j]);
            assert(out.take(k).len() == k);
        }
    }
}

/// The rebuild order holds every module of the list as often as the list does, and up to the
/// point where a cycle stops it, each module comes after every module of the list that it
/// depends on; of the modules after that point, none could go next.
pub proof fn reload_order_is_a_dependency_order(g: GraphView, list: Seq<Seq<char>>)
    ensures
        rounds(g, list, Seq::empty(), list).to_multiset() == list.to_multiset(),
        exists|k: int|
            0 <= k <= rounds(g, list, Seq::empty(), list).len() && in_dependency_order(
                g,
                list,
                #[trigger] rounds(g, list, Seq::empty(), list).take(k),
            ) && forall|j: int|
                k <= j < rounds(g, list, Seq::empty(), list).len() ==> !ready(
                    g,
                    list,
                    rounds(g, list, Seq::empty(), list).take(k),
                    #[trigger] rounds(g, list, Seq::empty(), list)[j],
                ),
{
    lemma_rounds_props(g, list, Seq::empty(), list);
    assert(Seq::<Seq<char>>::empty() + list =~= list);
}

/// A dependency of `m` in `list` that `done` does not hold.
pub open spec fn unplaced_dep(g: GraphView, list: Seq<Seq<char>>, done: Seq<Seq<char>>, m: Seq<char>) -> Seq<char> {
    choose|d: Seq<char>| #[trigger] entry_deps(g, m).contains(d) && list.contains(d) && !done.contains(d)
}

/// From `m`, `n` steps along dependencies in `list` that `done` does not hold.
pub open spec fn unplaced_walk(g: GraphView, list: Seq<Seq<char>>, done: Seq<Seq<char>>, m: Seq<char>, n: nat) -> Seq<Seq<char>>
    decreases n,
{
    if n == 0 {
        seq![m]
    } else {
        let w = unplaced_walk(g, list, done, m, (n - 1) as nat);
        w.push(unplaced_dep(g, list, done, w.last()))
    }
}

proof fn lemma_entry_dep_depends(g: GraphView, m: Seq<char>, d: Seq<char>)
    requires
        entry_deps(g, m).contains(d),
    ensures
        depends(g, m, d),
{
    lemma_entry_from(g, m, 0);
    let i = first_entry(g, m).unwrap();
    assert(g[i].0 == m && g[i].1.contains(d));
}

/// When no module of `rest` is ready after `done`, and `list` lies in `done` and `rest`, a walk
/// from a module of `rest` along unplaced dependencies stays in `rest`, each step a dependency.
proof fn lemma_unplaced_walk(g: GraphView, list: Seq<Seq<char>>, done: Seq<Seq<char>>, rest: Seq<Seq<char>>, m: Seq<char>, n: nat)
    requires
        rest.contains(m),
        forall|x: Seq<char>| rest.contains(x) ==> !ready(g, list, done, x),
        forall|x: Seq<char>| list.contains(x) ==> done.contains(x) || rest.contains(x),
    ensures
        unplaced_walk(g, list, done, m, n).len() == n + 1,
        unplaced_walk(g, list, done, m, n)[0] == m,
        forall|k: int| 0 <= k <= n ==> rest.contains(#[trigger] unplaced_walk(g, list, done, m, n)[k]),
        forall|k: int| 0 <= k < n ==> depends(g, #[trigger] unplaced_walk(g, list, done, m, n)[k], unplaced_walk(g, list, done, m, n)[k + 1]),
    decreases n,
{
    if n > 0 {
        lemma_unplaced_walk(g, list, done, rest, m, (n - 1) as nat);
        let w = unplaced_walk(g, list, done, m, (n - 1) as nat);
        let x = w.last();
        assert(rest.contains(x)) by {
            assert(w[n - 1] == x);
        }
        assert(!ready(g, list, done, x));
        let d = unplaced_dep(g, list, done, x);
        assert(entry_deps(g, x).contains(d) && list.contains(d) && !done.contains(d));
        lemma_entry_dep_depends(g, x, d);
        let w2 = unplaced_walk(g, list, done, m, n);
        assert(w2 == w.push(d));
        assert forall|k: int| 0 <= k <= n implies rest.contains(#[trigger] w2[k]) by {
            if k < n {
                assert(w2[k] == w[k]);
            }
        }
        assert forall|k: int| 0 <= k < n implies depends(g, #[trigger] w2[k], w2[k + 1]) by {
            if k < n - 1 {
                assert(w2[k] == w[k] && w2[k + 1] == w[k + 1]);
            } else {
                assert(w2[k] == x && w2[k + 1] == d);
            }
        }
    }
}

proof fn lemma_split_covers(list: Seq<Seq<char>>, out: Seq<Seq<char>>, k: int)
    requires
        out.to_multiset() == list.to_multiset(),
        0 <= k <= out.len(),
    ensures
        forall|x: Seq<char>| list.contains(x) ==> out.take(k).contains(x) || out.skip(k).contains(x),
        forall|x: Seq<char>| out.skip(k).contains(x) ==> list.contains(x),
{
    list.to_multiset_ensures();
    out.to_multiset_ensures();
    assert forall|x: Seq<char>| list.contains(x) implies out.take(k).contains(x) || out.skip(k).contains(x) by {
        assert(list.to_multiset().count(x) > 0);
        assert(out.contains(x));
        let j = choose|j: int| 0 <= j < out.len() && out[j] == x;
        if j < k {
            assert(out.take(k)[j] == x);
        } else {
            assert(out.skip(k)[j - k] == x);
        }
    }
    assert forall|x: Seq<char>| out.skip(k).contains(x) implies list.contains(x) by {
        let j = choose|j: int| 0 <= j < out.skip(k).len() && out.skip(k)[j] == x;
        assert(out[k + j] == x);
        assert(out.to_multiset().count(x) > 0);
    }
}

/// A walk with more steps than `rest` has modules, all of them in `rest`, comes back to one.
proof fn lemma_walk_repeats(w: Seq<Seq<char>>, rest: Seq<Seq<char>>)
    requires
        w.len() == rest.len() + 1,
        forall|k: int| 0 <= k < w.len() ==> rest.contains(#[trigger] w[k]),
    ensures
        exists|a: int, b: int| 0 <= a < b < w.len() && w[a] == w[b],
{
    broadcast use vstd::seq_lib::seq_to_set_is_finite;

    assert forall|x: Seq<char>| w.to_set().contains(x) implies rest.to_set().contains(x) by {
        let i = choose|i: int| 0 <= i < w.len() && w[i] == x;
        assert(rest.contains(w[i]));
    }
    vstd::set_lib::lemma_len_subset(w.to_set(), rest.to_set());
    rest.lemma_cardinality_of_set();
    if w.no_duplicates() {
        w.unique_seq_to_set();
        assert(false);
    }
    let (i, j) = choose|i: int, j: int| 0 <= i < w.len() && 0 <= j < w.len() && i != j && w[i] == w[j];
    if i < j {
        assert(w[i] == w[j]);
    } else {
        assert(w[j] == w[i]);
    }
}

/// Without a dependency cycle among the modules of `list`, the rebuild order is a full
/// dependency order: every module comes after every module of the list it depends on.
#[verifier::spinoff_prover]
#[verifier::rlimit(80)]
pub proof fn without_a_cycle_the_reload_order_is_a_full_dependency_order(g: GraphView, list: Seq<Seq<char>>)
    requires
        forall|m: Seq<char>| list.contains(m) ==> !reaches(g, m, m),
    ensures
        in_dependency_order(g, list, rounds(g, list, Seq::empty(), list)),
{
    let out = rounds(g, list, Seq::empty(), list);
    lemma_rounds_props(g, list, Seq::empty(), list);
    assert(Seq::<Seq<char>>::empty() + list =~= list);
    let k = choose|k: int|
        0 <= k <= out.len() && in_dependency_order(g, list, #[trigger] out.take(k)) && forall|j: int|
            k <= j < out.len() ==> !ready(g, list, out.take(k), #[trigger] out[j]);
    if k == out.len() {
        assert(out.take(k) =~= out);
        return;
    }
    let done = out.take(k);
    let rest = out.skip(k);
    assert forall|x: Seq<char>| rest.contains(x) implies !ready(g, list, done, x) by {
        let j = choose|j: int| 0 <= j < rest.len() && rest[j] == x;
        assert(out[k + j] == x);
    }
    lemma_split_covers(list, out, k);
    let m = rest[0];
    let n = rest.len();
    lemma_unplaced_walk(g, list, done, rest, m, n);
    let w = unplaced_walk(g, list, done, m, n);
    lemma_walk_repeats(w, rest);
    let (a, b) = choose|a: int, b: int| 0 <= a < b < w.len() && w[a] == w[b];
    let p = w.subrange(a, b + 1);
    assert forall|q: int| 0 <= q < p.len() - 1 implies depends(g, #[trigger] p[q], p[q + 1]) by {
        assert(p[q] == w[a + q] && p[q + 1] == w[a + q + 1]);
    }
    assert(dep_chain(g, p));
    assert(p[0] == w[a] && p.last() == w[b]);
    assert(reaches(g, w[a], w[a]));
    assert(rest.contains(w[a]));
    assert(list.contains(w[a]));
}

/// The first entry of `graph` for `m`, found as `first_entry` says.
fn find_entry(graph: &[(String, Vec<String>)], m: &String) -> (r: Option<usize>)
    ensures
        first_entry(graph_view(graph@), m@) == match r {
            Some(i) => Some(i as int),
            None => None::<int>,
        },
        r matches Some(i) ==> i < graph@.len(),
{
    let ghost g = graph_view(graph@);
    let mut i: usize = 0;
    while i < graph.len()
        invariant
            g == graph_view(graph@),
            i <= graph@.len(),
            entry_from(g, m@, i as int) == first_entry(g, m@),
        decreases graph@.len() - i,
    {
        assert(g[i as int].0 == graph@[i as int].0@);
        if graph[i].0 == *m {
            return Some(i);
        }
        i += 1;
    }
    None
}

/// Whether `m` can be rebuilt after `done`, its dependencies weighed against `list`.
fn ready_now(graph: &[(String, Vec<String>)], list: &Vec<String>, done: &Vec<String>, m: &String) -> (r: bool)
    ensures
        r == ready(graph_view(graph@), texts(list@), texts(done@), m@),
{
    let ghost g = graph_view(graph@);
    match find_entry(graph, m) {
        None => {
            assert(entry_deps(g, m@) =~= Seq::<Seq<char>>::empty());
            true
        },
        Some(i) => {
            let deps = &graph[i].1;
            assert(g[i as int].1 == texts(deps@));
            let mut k: usize = 0;
            while k < deps.len()
                invariant
                    k <= deps@.len(),
                    g == graph_view(graph@),
                    i < g.len(),
                    first_entry(g, m@) == Some(i as int),
                    g[i as int].1 == texts(deps@),
                    forall|j: int| 0 <= j < k ==> !texts(list@).contains(#[trigger] texts(deps@)[j]) || texts(done@).contains(texts(deps@)[j]),
                decreases deps@.len() - k,
            {
                if holds(list, &deps[k]) && !holds(done, &deps[k]) {
                    let ghost x = texts(deps@)[k as int];
                    assert(x == deps@[k as int]@);
                    assert(texts(list@).contains(x));
                    assert(!texts(done@).contains(x));
                    assert(g[i as int].1.contains(x));
                    assert(entry_deps(g, m@).contains(x));
                    return false;
                }
                k += 1;
            }
            proof {
                assert forall|d: Seq<char>| #[trigger] entry_deps(g, m@).contains(d) implies !texts(list@).contains(d) || texts(done@).contains(d) by {
                    let j = choose|j: int| 0 <= j < texts(deps@).len() && texts(deps@)[j] == d;
                }
            }
            true
        },
    }
}

/// The modules that depend on `id`, ordered so that each comes after every module it
/// depends on that is also in the list: the order they are rebuilt in when `id` changes. A
/// dependency cycle cannot be ordered; its modules follow as they were found, none dropped.
#[verifier::spinoff_prover]
pub fn reload_order(id: &str, graph: &[(String, Vec<String>)]) -> (out: Vec<String>)
    ensures
        exists|a: Seq<Seq<char>>|
            #![trigger rounds(graph_view(graph@), a, Seq::empty(), a)]
            no_repeats(a) && (forall|m: Seq<char>| a.contains(m) <==> reaches(graph_view(graph@), m, id@))
                && texts(out@) == rounds(graph_view(graph@), a, Seq::empty(), a),
{
    let ghost g = graph_view(graph@);
    let list = transitive_dependents(id, graph);
    let ghost a = texts(list@);
    let mut remaining: Vec<String> = Vec::new();
    let mut k: usize = 0;
    while k < list.len()
        invariant
            k <= list@.len(),
            texts(remaining@) == a.take(k as int),
            a == texts(list@),
        decreases list@.len() - k,
    {
        remaining.push(list[k].clone());
        proof {
            assert(a.take(k + 1) =~= a.take(k as int).push(a[k as int]));
            assert(texts(remaining@) =~= a.take(k + 1));
        }
        k += 1;
    }
    assert(a.take(k as int) =~= a);
    let mut out: Vec<String> = Vec::new();
    assert(texts(out@) =~= Seq::<Seq<char>>::empty());
    while remaining.len() > 0
        invariant
            g == graph_view(graph@),
            a == texts(list@),
            no_repeats(a),
            forall|m: Seq<char>| a.contains(m) <==> reaches(g, m, id@),
            rounds(g, a, texts(out@), texts(remaining@)) == rounds(g, a, Seq::empty(), a),
        decreases remaining@.len(),
    {
        let ghost o0 = texts(out@);
        let ghost r0 = texts(remaining@);
        let mut still: Vec<String> = Vec::new();
        proof {
            assert(r0.skip(0) =~= r0);
            assert(texts(still@) + pass(g, a, o0, r0).1 =~= pass(g, a, o0, r0).1);
        }
        let mut j: usize = 0;
        while j < remaining.len()
            invariant
                g == graph_view(graph@),
                a == texts(list@),
                r0 == texts(remaining@),
                j <= r0.len(),
                pass(g, a, texts(out@), r0.skip(j as int)).0 == pass(g, a, o0, r0).0,
                texts(still@) + pass(g, a, texts(out@), r0.skip(j as int)).1 == pass(g, a, o0, r0).1,
            decreases r0.len() - j,
        {
            let m = remaining[j].clone();
            let ghost o1 = texts(out@);
            let ghost s1 = texts(still@);
            proof {
                assert(r0.skip(j as int)[0] == m@);
                assert(r0.skip(j as int).drop_first() =~= r0.skip(j + 1));
                lemma_pass_step(g, a, o1, r0.skip(j as int));
            }
            if ready_now(graph, &list, &out, &m) {
                out.push(m);
                assert(texts(out@) =~= o1.push(r0[j as int]));
            } else {
                still.push(m);
                proof {
                    assert(texts(still@) =~= s1.push(r0[j as int]));
                    let rest = pass(g, a, o1, r0.skip(j + 1)).1;
                    assert(s1.push(r0[j as int]) + rest =~= s1 + (seq![r0[j as int]] + rest));
                }
            }
            j += 1;
        }
        proof {
            assert(r0.skip(j as int) =~= Seq::<Seq<char>>::empty());
            assert(texts(still@) =~= pass(g, a, o0, r0).1);
            lemma_pass_len(g, a, o0, r0);
        }
        if still.len() >= remaining.len() {
            let ghost o2 = texts(out@);
            let mut q: usize = 0;
            while q < still.len()
                invariant
                    q <= still@.len(),
                    texts(out@) == o2 + texts(still@).take(q as int),
                decreases still@.len() - q,
            {
                let ghost o3 = texts(out@);
                out.push(still[q].clone());
                proof {
                    assert(texts(still@).take(q + 1) =~= texts(still@).take(q as int).push(texts(still@)[q as int]));
                    assert(texts(out@) =~= o3.push(texts(still@)[q as int]));
                }
                q += 1;
            }
            proof {
                assert(texts(still@).take(q as int) =~= texts(still@));
                assert(o2.subrange(0, o0.len() as int) == o0);
                assert(o2 =~= o0);
                assert(rounds(g, a, o0, r0) == o0 + texts(still@));
                assert(texts(out@) == rounds(g, a, Seq::empty(), a));
            }
            return out;
        }
        remaining = still;
    }
    out
}


/// `x` is the id of an entry of `g`: an installed module.
pub open spec fn is_id(g: GraphView, x: Seq<char>) -> bool {
    exists|i: int| 0 <= i < g.len() && (#[trigger] g[i]).0 == x
}

/// Some module outside `gone` depends on `d`.
pub open spec fn needed(g: GraphView, gone: Seq<Seq<char>>, d: Seq<char>) -> bool {
    exists|i: int| 0 <= i < g.len() && !gone.contains((#[trigger] g[i]).0) && g[i].1.contains(d)
}

/// `d` is an installed module, not gone, that nothing left needs.
pub open spec fn unneeded(g: GraphView, gone: Seq<Seq<char>>, d: Seq<char>) -> bool {
    is_id(g, d) && !gone.contains(d) && !needed(g, gone, d)
}

/// The first dependency, in the order of the entries and of their dependencies, that a gone
/// module declares and that nothing left needs, looking from dependency `j` of entry `i`.
pub open spec fn scan_from(g: GraphView, gone: Seq<Seq<char>>, i: int, j: int) -> Option<Seq<char>>
    decreases g.len() - i, (if 0 <= i < g.len() { g[i].1.len() as int } else { 0 }) - j,
{
    if i < 0 || i >= g.len() {
        None
    } else if j < 0 || j >= g[i].1.len() || !gone.contains(g[i].0) {
        scan_from(g, gone, i + 1, 0)
    } else if unneeded(g, gone, g[i].1[j]) {
        Some(g[i].1[j])
    } else {
        scan_from(g, gone, i, j + 1)
    }
}

/// The next module an uninstall of `gone` leaves orphaned, if any.
pub open spec fn next_orphan(g: GraphView, gone: Seq<Seq<char>>) -> Option<Seq<char>> {
    scan_from(g, gone, 0, 0)
}

proof fn lemma_scan_from(g: GraphView, gone: Seq<Seq<char>>, i: int, j: int)
    ensures
        scan_from(g, gone, i, j) matches Some(d) ==> unneeded(g, gone, d) && exists|k: int|
            0 <= k < g.len() && gone.contains((#[trigger] g[k]).0) && g[k].1.contains(d),
        scan_from(g, gone, i, j) is None && 0 <= i && 0 <= j ==> forall|k: int, q: int|
            ((k == i && j <= q) || i < k) && k < g.len() && 0 <= q < g[k].1.len() && gone.contains(g[k].0)
                ==> !unneeded(g, gone, #[trigger] g[k].1[q]),
    decreases g.len() - i, (if 0 <= i < g.len() { g[i].1.len() as int } else { 0 }) - j,
{
    if i < 0 || i >= g.len() {
    } else if j < 0 || j >= g[i].1.len() || !gone.contains(g[i].0) {
        lemma_scan_from(g, gone, i + 1, 0);
    } else if unneeded(g, gone, g[i].1[j]) {
        assert(g[i].1.contains(g[i].1[j]));
    } else {
        lemma_scan_from(g, gone, i, j + 1);
    }
}


/// Whether some entry of `graph` is module `d`.
fn is_module(graph: &[(String, Vec<String>)], d: &String) -> (r: bool)
    ensures
        r == is_id(graph_view(graph@), d@),
{
    let ghost g = graph_view(graph@);
    let mut i: usize = 0;
    while i < graph.len()
        invariant
            g == graph_view(graph@),
            i <= graph@.len(),
            forall|k: int| 0 <= k < i ==> (#[trigger] g[k]).0 != d@,
        decreases graph@.len() - i,
    {
        assert(g[i as int].0 == graph@[i as int].0@);
        if graph[i].0 == *d {
            return true;
        }
        i += 1;
    }
    false
}

/// Whether a module outside `gone` depends on `d`.
fn still_needed(graph: &[(String, Vec<String>)], gone: &Vec<String>, d: &String) -> (r: bool)
    ensures
        r == needed(graph_view(graph@), texts(gone@), d@),
{
    let ghost g = graph_view(graph@);
    let mut i: usize = 0;
    while i < graph.len()
        invariant
            g == graph_view(graph@),
            i <= graph@.len(),
            forall|k: int| 0 <= k < i ==> !(!texts(gone@).contains((#[trigger] g[k]).0) && g[k].1.contains(d@)),
        decreases graph@.len() - i,
    {
        assert(g[i as int] == (graph@[i as int].0@, texts(graph@[i as int].1@)));
        if !holds(gone, &graph[i].0) && holds(&graph[i].1, d) {
            return true;
        }
        i += 1;
    }
    false
}

/// The next module an uninstall of `gone` leaves orphaned, as `next_orphan` finds it.
fn find_orphan(graph: &[(String, Vec<String>)], gone: &Vec<String>) -> (r: Option<String>)
    ensures
        next_orphan(graph_view(graph@), texts(gone@)) == match r {
            Some(x) => Some(x@),
            None => None::<Seq<char>>,
        },
{
    let ghost g = graph_view(graph@);
    let ghost gv = texts(gone@);
    let mut i: usize = 0;
    while i < graph.len()
        invariant
            g == graph_view(graph@),
            gv == texts(gone@),
            i <= graph@.len(),
            scan_from(g, gv, i as int, 0) == next_orphan(g, gv),
        decreases graph@.len() - i,
    {
        assert(g[i as int] == (graph@[i as int].0@, texts(graph@[i as int].1@)));
        let deps = &graph[i].1;
        if holds(gone, &graph[i].0) {
            let mut j: usize = 0;
            while j < deps.len()
                invariant
                    g == graph_view(graph@),
                    gv == texts(gone@),
                    i < graph@.len(),
                    g[i as int].1 == texts(deps@),
                    gv.contains(g[i as int].0),
                    j <= deps@.len(),
                    scan_from(g, gv, i as int, j as int) == next_orphan(g, gv),
                decreases deps@.len() - j,
            {
                let d = &deps[j];
                assert(g[i as int].1[j as int] == d@);
                if is_module(graph, d) && !holds(gone, d) && !still_needed(graph, gone, d) {
                    return Some(d.clone());
                }
                j += 1;
            }
        }
        i += 1;
    }
    None
}

/// The installed modules left needed by nothing when every module of `removing` is
/// uninstalled, in the order they fall out: a module that only gone ones needed goes too, and
/// then what only it needed as well. Each is the next such module, as `next_orphan` looks for
/// it, after the ones before it; after the last there is none.
#[verifier::spinoff_prover]
pub fn orphaned_by(removing: &[String], graph: &[(String, Vec<String>)]) -> (out: Vec<String>)
    ensures
        forall|k: int|
            0 <= k < out@.len() ==> next_orphan(graph_view(graph@), texts(removing@) + texts(out@).take(k))
                == Some(#[trigger] texts(out@)[k]),
        next_orphan(graph_view(graph@), texts(removing@) + texts(out@)) is None,
{
    let ghost g = graph_view(graph@);
    let ghost rv = texts(removing@);
    let mut gone: Vec<String> = Vec::new();
    let mut k: usize = 0;
    while k < removing.len()
        invariant
            k <= removing@.len(),
            rv == texts(removing@),
            texts(gone@) == rv.take(k as int),
        decreases removing@.len() - k,
    {
        gone.push(removing[k].clone());
        proof {
            assert(rv.take(k + 1) =~= rv.take(k as int).push(rv[k as int]));
            assert(texts(gone@) =~= rv.take(k + 1));
        }
        k += 1;
    }
    assert(rv.take(k as int) =~= rv);
    let mut out: Vec<String> = Vec::new();
    assert(texts(out@) =~= Seq::<Seq<char>>::empty());
    assert(rv + texts(out@) =~= rv);
    loop
        invariant
            g == graph_view(graph@),
            rv == texts(removing@),
            texts(gone@) == rv + texts(out@),
            forall|q: int|
                0 <= q < out@.len() ==> next_orphan(g, rv + texts(out@).take(q)) == Some(#[trigger] texts(out@)[q]),
        ensures
            next_orphan(g, rv + texts(out@)) is None,
        decreases unseen(g, texts(gone@)),
    {
        match find_orphan(graph, &gone) {
            None => {
                break;
            },
            Some(d) => {
                let ghost o0 = texts(out@);
                let ghost g0 = texts(gone@);
                proof {
                    lemma_scan_from(g, g0, 0, 0);
                    lemma_unseen_push(g, g0, d@);
                }
                out.push(d.clone());
                gone.push(d);
                proof {
                    assert(texts(out@) =~= o0.push(d@));
                    assert(texts(gone@) =~= g0.push(d@));
                    assert(texts(gone@) =~= rv + texts(out@));
                    assert forall|q: int| 0 <= q < out@.len() implies next_orphan(g, rv + texts(out@).take(q)) == Some(#[trigger] texts(out@)[q]) by {
                        if q < o0.len() {
                            assert(texts(out@).take(q) =~= o0.take(q));
                            assert(texts(out@)[q] == o0[q]);
                        } else {
                            assert(texts(out@).take(q) =~= o0);
                        }
                    }
                }
            },
        }
    }
    out
}


/// What an uninstall orphans: each orphan is an installed module, not one of those removed,
/// that no module left installed depends on; none is named twice; and every installed module
/// that a removed or orphaned module depends on and that stays is still needed by a module
/// that stays.
pub proof fn orphans_are_needed_by_nothing_left(g: GraphView, removing: Seq<Seq<char>>, out: Seq<Seq<char>>)
    requires
        forall|k: int| 0 <= k < out.len() ==> next_orphan(g, removing + out.take(k)) == Some(#[trigger] out[k]),
        next_orphan(g, removing + out) is None,
    ensures
        forall|k: int|
            0 <= k < out.len() ==> is_id(g, #[trigger] out[k]) && !removing.contains(out[k]) && !needed(
                g,
                removing + out,
                out[k],
            ),
        no_repeats(out),
        forall|i: int, d: Seq<char>|
            0 <= i < g.len() && (removing + out).contains(g[i].0) && #[trigger] g[i].1.contains(d) && is_id(g, d)
                && !(removing + out).contains(d) ==> needed(g, removing + out, d),
{
    let all = removing + out;
    assert forall|k: int| 0 <= k < out.len() implies is_id(g, #[trigger] out[k]) && !removing.contains(out[k]) && !needed(g, all, out[k]) by {
        let gk = removing + out.take(k);
        lemma_scan_from(g, gk, 0, 0);
        assert(unneeded(g, gk, out[k]));
        if removing.contains(out[k]) {
            let p = choose|p: int| 0 <= p < removing.len() && removing[p] == out[k];
            assert(gk[p] == out[k]);
        }
        if needed(g, all, out[k]) {
            let i = choose|i: int| 0 <= i < g.len() && !all.contains((#[trigger] g[i]).0) && g[i].1.contains(out[k]);
            if gk.contains(g[i].0) {
                let p = choose|p: int| 0 <= p < gk.len() && gk[p] == g[i].0;
                if p < removing.len() {
                    assert(all[p] == g[i].0);
                } else {
                    assert(all[p] == gk[p]);
                }
            }
            assert(needed(g, gk, out[k]));
        }
    }
    assert forall|p: int, q: int| 0 <= p < q < out.len() implies #[trigger] out[p] != #[trigger] out[q] by {
        let gq = removing + out.take(q);
        lemma_scan_from(g, gq, 0, 0);
        assert(gq[removing.len() + p] == out[p]);
    }
    lemma_scan_from(g, all, 0, 0);
    assert forall|i: int, d: Seq<char>|
        0 <= i < g.len() && all.contains(g[i].0) && #[trigger] g[i].1.contains(d) && is_id(g, d) && !all.contains(d) implies needed(g, all, d) by {
        let q = choose|q: int| 0 <= q < g[i].1.len() && g[i].1[q] == d;
        assert(!unneeded(g, all, g[i].1[q]));
    }
}


/// A character that breaks a line of a review: a control character, a line or paragraph
/// separator, a direction mark, or a bidirectional embedding, override or isolate.
pub open spec fn breaks_line(c: char) -> bool {
    let u = c as u32;
    control(c) || u == 0x2028 || u == 0x2029 || u == 0x200E || u == 0x200F || u == 0x061C || (0x202A <= u
        && u <= 0x202E) || (0x2066 <= u && u <= 0x2069)
}

/// `s` with every line-breaking character made a space.
pub open spec fn spaced(s: Seq<char>) -> Seq<char> {
    s.map_values(|c: char| if breaks_line(c) { ' ' } else { c })
}

/// The words of `s` (its runs of characters that are not white space), one space between
/// each two; `started` when a word came before `s`, `gap` when white space followed it.
pub open spec fn squeeze_from(s: Seq<char>, started: bool, gap: bool) -> Seq<char>
    decreases s.len(),
{
    if s.len() == 0 {
        Seq::empty()
    } else if white(s[0]) {
        squeeze_from(s.drop_first(), started, started)
    } else {
        (if gap {
            seq![' ', s[0]]
        } else {
            seq![s[0]]
        }) + squeeze_from(s.drop_first(), true, false)
    }
}

/// The words of `s`, one space between each two.
pub open spec fn squeeze(s: Seq<char>) -> Seq<char> {
    squeeze_from(s, false, false)
}

/// `s` as one line of at most `max` characters: every line-breaking character made a space,
/// runs of white space made one space and none at either end, and a longer text cut to
/// `max - 1` characters, white space at the cut dropped, and "…" added — or, with no room at
/// all (`max` of 0), nothing.
pub open spec fn one_line_of(s: Seq<char>, max: usize) -> Seq<char> {
    let j = squeeze(spaced(s));
    if j.len() <= max {
        j
    } else if max == 0 {
        Seq::empty()
    } else {
        trim_end(j.take(max - 1)).push('\u{2026}')
    }
}

/// A text made one line is at most `max` characters long.
pub proof fn lemma_one_line_fits(s: Seq<char>, max: usize)
    ensures
        one_line_of(s, max).len() <= max,
{
    let j = squeeze(spaced(s));
    if j.len() > max && max > 0 {
        lemma_trim_end_len(j.take(max - 1));
    }
}

fn breaks_line_char(c: char) -> (r: bool)
    ensures
        r == breaks_line(c),
{
    let u = c as u32;
    is_control(c) || u == 0x2028 || u == 0x2029 || u == 0x200E || u == 0x200F || u == 0x061C || (0x202A <= u
        && u <= 0x202E) || (0x2066 <= u && u <= 0x2069)
}

/// `s` as one line of at most `max` characters, for text a module's author wrote that a
/// review shows: no line break, control character or bidirectional control survives to put
/// words on a line of their own, reorder what follows, or reach a terminal.
pub fn one_line(s: &str, max: usize) -> (r: String)
    ensures
        r@ == one_line_of(s@, max),
        r@.len() <= max,
{
    proof {
        lemma_one_line_fits(s@, max);
    }
    let cs = chars_of(s);
    let ghost sp = spaced(s@);
    let mut out: Vec<char> = Vec::new();
    let mut started = false;
    let mut gap = false;
    let mut i: usize = 0;
    assert(sp.skip(0) =~= sp);
    while i < cs.len()
        invariant
            cs@ == s@,
            sp == spaced(s@),
            i <= cs@.len(),
            out@ + squeeze_from(sp.skip(i as int), started, gap) == squeeze(sp),
        decreases cs@.len() - i,
    {
        let c0 = cs[i];
        let c = if breaks_line_char(c0) {
            ' '
        } else {
            c0
        };
        let ghost o0 = out@;
        let ghost rest = sp.skip(i + 1);
        proof {
            assert(sp.skip(i as int)[0] == c);
            assert(sp.skip(i as int).drop_first() =~= rest);
        }
        if is_white(c) {
            gap = started;
        } else {
            if gap {
                out.push(' ');
            }
            out.push(c);
            proof {
                let head = out@.subrange(o0.len() as int, out@.len() as int);
                assert(out@ =~= o0 + head);
                assert(o0 + (head + squeeze_from(rest, true, false)) =~= out@ + squeeze_from(rest, true, false));
            }
            started = true;
            gap = false;
        }
        i += 1;
    }
    assert(sp.skip(i as int) =~= Seq::<char>::empty());
    assert(out@ =~= squeeze(sp));
    if out.len() <= max {
        return string_of(&out);
    }
    if max == 0 {
        return String::new();
    }
    let keep: usize = max - 1;
    let ghost j = out@;
    out.truncate(keep);
    assert(out@ =~= j.take(keep as int));
    while out.len() > 0 && is_white(out[out.len() - 1])
        invariant
            trim_end(out@) == trim_end(j.take(keep as int)),
        decreases out@.len(),
    {
        let ghost o0 = out@;
        out.pop();
        assert(out@ =~= o0.drop_last());
    }
    out.push('\u{2026}');
    string_of(&out)
}


/// What capability `name` lets a module do, as a phrase that completes "It may …", for the
/// names this version knows.
pub open spec fn capability_phrase(name: Seq<char>) -> Option<Seq<char>> {
    if name == "window"@ {
        Some("see which window and control are in front, and follow the focus as it moves"@)
    } else if name == "screen"@ {
        Some("see everything on the screen, search it for images, and save pictures of it as PNG files anywhere your account can write"@)
    } else if name == "ocr"@ {
        Some("read text on the screen"@)
    } else if name == "element"@ {
        Some("read and operate other applications\u{2019} controls through accessibility"@)
    } else if name == "input"@ {
        Some("move and click the mouse, and send keystrokes and text"@)
    } else if name == "keys"@ {
        Some("take keys away from the application in front while it holds them"@)
    } else if name == "hotkey"@ {
        Some("register keyboard shortcuts that work in every application"@)
    } else if name == "gamepad"@ {
        Some("watch game controllers"@)
    } else if name == "speech"@ {
        Some("speak through your screen reader"@)
    } else if name == "sound"@ {
        Some("play sounds"@)
    } else if name == "timer"@ {
        Some("run code on a timer, in the background"@)
    } else if name == "settings"@ {
        Some("keep settings of its own"@)
    } else if name == "log"@ {
        Some("write to the application\u{2019}s log"@)
    } else if name == "path"@ {
        Some("turn file names into full paths"@)
    } else if name == "resource"@ {
        Some("read files: its own, and any other file your account can read"@)
    } else if name == "arbiter"@ {
        Some("compete with other overlays for the same window"@)
    } else {
        None
    }
}

/// The capabilities this version knows, each with what it lets a module do, as the review
/// writes it: `resource` reaches any file the account can read, not only the module's own.
pub open spec fn capability_table() -> Seq<(Seq<char>, Seq<char>)> {
    seq![
        ("window"@, "see which window and control are in front, and follow the focus as it moves"@),
        ("screen"@, "see everything on the screen, search it for images, and save pictures of it as PNG files anywhere your account can write"@),
        ("ocr"@, "read text on the screen"@),
        ("element"@, "read and operate other applications\u{2019} controls through accessibility"@),
        ("input"@, "move and click the mouse, and send keystrokes and text"@),
        ("keys"@, "take keys away from the application in front while it holds them"@),
        ("hotkey"@, "register keyboard shortcuts that work in every application"@),
        ("gamepad"@, "watch game controllers"@),
        ("speech"@, "speak through your screen reader"@),
        ("sound"@, "play sounds"@),
        ("timer"@, "run code on a timer, in the background"@),
        ("settings"@, "keep settings of its own"@),
        ("log"@, "write to the application\u{2019}s log"@),
        ("path"@, "turn file names into full paths"@),
        ("resource"@, "read files: its own, and any other file your account can read"@),
        ("arbiter"@, "compete with other overlays for the same window"@),
    ]
}

/// Each capability of the table reads as the phrase the table gives it, and a name the table
/// does not hold has no phrase.
pub proof fn each_capability_reads_as_its_table_entry(name: Seq<char>)
    ensures
        forall|k: int|
            0 <= k < capability_table().len() ==> capability_phrase(#[trigger] capability_table()[k].0) == Some(
                capability_table()[k].1,
            ),
        (forall|k: int| 0 <= k < capability_table().len() ==> (#[trigger] capability_table()[k]).0 != name) ==> capability_phrase(
            name,
        ) is None,
{
    reveal_strlit("window");
    reveal_strlit("screen");
    reveal_strlit("ocr");
    reveal_strlit("element");
    reveal_strlit("input");
    reveal_strlit("keys");
    reveal_strlit("hotkey");
    reveal_strlit("gamepad");
    reveal_strlit("speech");
    reveal_strlit("sound");
    reveal_strlit("timer");
    reveal_strlit("settings");
    reveal_strlit("log");
    reveal_strlit("path");
    reveal_strlit("resource");
    reveal_strlit("arbiter");
    assert("window"@.len() == 6 && "window"@[0] == 'w' && "window"@[1] == 'i');
    assert("screen"@.len() == 6 && "screen"@[0] == 's' && "screen"@[1] == 'c');
    assert("ocr"@.len() == 3 && "ocr"@[0] == 'o' && "ocr"@[1] == 'c');
    assert("element"@.len() == 7 && "element"@[0] == 'e' && "element"@[1] == 'l');
    assert("input"@.len() == 5 && "input"@[0] == 'i' && "input"@[1] == 'n');
    assert("keys"@.len() == 4 && "keys"@[0] == 'k' && "keys"@[1] == 'e');
    assert("hotkey"@.len() == 6 && "hotkey"@[0] == 'h' && "hotkey"@[1] == 'o');
    assert("gamepad"@.len() == 7 && "gamepad"@[0] == 'g' && "gamepad"@[1] == 'a');
    assert("speech"@.len() == 6 && "speech"@[0] == 's' && "speech"@[1] == 'p');
    assert("sound"@.len() == 5 && "sound"@[0] == 's' && "sound"@[1] == 'o');
    assert("timer"@.len() == 5 && "timer"@[0] == 't' && "timer"@[1] == 'i');
    assert("settings"@.len() == 8 && "settings"@[0] == 's' && "settings"@[1] == 'e');
    assert("log"@.len() == 3 && "log"@[0] == 'l' && "log"@[1] == 'o');
    assert("path"@.len() == 4 && "path"@[0] == 'p' && "path"@[1] == 'a');
    assert("resource"@.len() == 8 && "resource"@[0] == 'r' && "resource"@[1] == 'e');
    assert("arbiter"@.len() == 7 && "arbiter"@[0] == 'a' && "arbiter"@[1] == 'r');
    let t = capability_table();
    assert(t[0] == ("window"@, "see which window and control are in front, and follow the focus as it moves"@));
    assert(capability_phrase("window"@) == Some("see which window and control are in front, and follow the focus as it moves"@));
    assert(t[1] == ("screen"@, "see everything on the screen, search it for images, and save pictures of it as PNG files anywhere your account can write"@));
    assert(capability_phrase("screen"@) == Some("see everything on the screen, search it for images, and save pictures of it as PNG files anywhere your account can write"@));
    assert(t[2] == ("ocr"@, "read text on the screen"@));
    assert(capability_phrase("ocr"@) == Some("read text on the screen"@));
    assert(t[3] == ("element"@, "read and operate other applications\u{2019} controls through accessibility"@));
    assert(capability_phrase("element"@) == Some("read and operate other applications\u{2019} controls through accessibility"@));
    assert(t[4] == ("input"@, "move and click the mouse, and send keystrokes and text"@));
    assert(capability_phrase("input"@) == Some("move and click the mouse, and send keystrokes and text"@));
    assert(t[5] == ("keys"@, "take keys away from the application in front while it holds them"@));
    assert(capability_phrase("keys"@) == Some("take keys away from the application in front while it holds them"@));
    assert(t[6] == ("hotkey"@, "register keyboard shortcuts that work in every application"@));
    assert(capability_phrase("hotkey"@) == Some("register keyboard shortcuts that work in every application"@));
    assert(t[7] == ("gamepad"@, "watch game controllers"@));
    assert(capability_phrase("gamepad"@) == Some("watch game controllers"@));
    assert(t[8] == ("speech"@, "speak through your screen reader"@));
    assert(capability_phrase("speech"@) == Some("speak through your screen reader"@));
    assert(t[9] == ("sound"@, "play sounds"@));
    assert(capability_phrase("sound"@) == Some("play sounds"@));
    assert(t[10] == ("timer"@, "run code on a timer, in the background"@));
    assert(capability_phrase("timer"@) == Some("run code on a timer, in the background"@));
    assert(t[11] == ("settings"@, "keep settings of its own"@));
    assert(capability_phrase("settings"@) == Some("keep settings of its own"@));
    assert(t[12] == ("log"@, "write to the application\u{2019}s log"@));
    assert(capability_phrase("log"@) == Some("write to the application\u{2019}s log"@));
    assert(t[13] == ("path"@, "turn file names into full paths"@));
    assert(capability_phrase("path"@) == Some("turn file names into full paths"@));
    assert(t[14] == ("resource"@, "read files: its own, and any other file your account can read"@));
    assert(capability_phrase("resource"@) == Some("read files: its own, and any other file your account can read"@));
    assert(t[15] == ("arbiter"@, "compete with other overlays for the same window"@));
    assert(capability_phrase("arbiter"@) == Some("compete with other overlays for the same window"@));
    assert forall|k: int| 0 <= k < t.len() implies capability_phrase(#[trigger] t[k].0) == Some(t[k].1) by {
        if k == 0 {} else if k == 1 {} else if k == 2 {} else if k == 3 {} else if k == 4 {} else if k == 5 {} else if k == 6 {} else if k == 7 {} else if k == 8 {} else if k == 9 {} else if k == 10 {} else if k == 11 {} else if k == 12 {} else if k == 13 {} else if k == 14 {}
    }
    if forall|k: int| 0 <= k < t.len() ==> (#[trigger] t[k]).0 != name {
        assert(t[0].0 != name);
        assert(t[1].0 != name);
        assert(t[2].0 != name);
        assert(t[3].0 != name);
        assert(t[4].0 != name);
        assert(t[5].0 != name);
        assert(t[6].0 != name);
        assert(t[7].0 != name);
        assert(t[8].0 != name);
        assert(t[9].0 != name);
        assert(t[10].0 != name);
        assert(t[11].0 != name);
        assert(t[12].0 != name);
        assert(t[13].0 != name);
        assert(t[14].0 != name);
        assert(t[15].0 != name);
    }
}

/// The phrase for capability `name`, if this version knows it.
fn phrase_for(name: &str) -> (r: Option<&'static str>)
    ensures
        capability_phrase(name@) == match r {
            Some(p) => Some(p@),
            None => None::<Seq<char>>,
        },
{
    if same_text(name, "window") {
        Some("see which window and control are in front, and follow the focus as it moves")
    } else if same_text(name, "screen") {
        Some("see everything on the screen, search it for images, and save pictures of it as PNG files anywhere your account can write")
    } else if same_text(name, "ocr") {
        Some("read text on the screen")
    } else if same_text(name, "element") {
        Some("read and operate other applications\u{2019} controls through accessibility")
    } else if same_text(name, "input") {
        Some("move and click the mouse, and send keystrokes and text")
    } else if same_text(name, "keys") {
        Some("take keys away from the application in front while it holds them")
    } else if same_text(name, "hotkey") {
        Some("register keyboard shortcuts that work in every application")
    } else if same_text(name, "gamepad") {
        Some("watch game controllers")
    } else if same_text(name, "speech") {
        Some("speak through your screen reader")
    } else if same_text(name, "sound") {
        Some("play sounds")
    } else if same_text(name, "timer") {
        Some("run code on a timer, in the background")
    } else if same_text(name, "settings") {
        Some("keep settings of its own")
    } else if same_text(name, "log") {
        Some("write to the application\u{2019}s log")
    } else if same_text(name, "path") {
        Some("turn file names into full paths")
    } else if same_text(name, "resource") {
        Some("read files: its own, and any other file your account can read")
    } else if same_text(name, "arbiter") {
        Some("compete with other overlays for the same window")
    } else {
        None
    }
}

/// What a review says a capability lets a module do: its phrase and, in brackets, its name;
/// for a name this version does not know, the name (as one line) and that it unlocks nothing.
pub open spec fn capability_text(name: Seq<char>) -> Seq<char> {
    match capability_phrase(name) {
        Some(p) => p + " ("@ + name + ")"@,
        None => "\u{201c}"@ + one_line_of(name, 60) + UNKNOWN_CAPABILITY@,
    }
}

/// What follows an unknown capability's name in a review.
pub const UNKNOWN_CAPABILITY: &'static str = "\u{201d} \u{2014} a name this version of the application does not know, which unlocks nothing";

/// What a capability lets a module do, as a phrase that completes "It may …", written for the
/// person deciding: `resource` says "any file your account can read" because that is what
/// it reaches.
pub fn describe_capability(name: &str) -> (r: String)
    ensures
        r@ == capability_text(name@),
        forall|k: int|
            0 <= k < capability_table().len() && (#[trigger] capability_table()[k]).0 == name@ ==> r@ == capability_table()[k].1
                + " ("@ + name@ + ")"@,
{
    proof {
        each_capability_reads_as_its_table_entry(name@);
    }
    match phrase_for(name) {
        Some(what) => {
            let mut s = joined(what, " (");
            s.append(name);
            s.append(")");
            s
        },
        None => {
            let line = one_line(name, 60);
            let mut s = joined("\u{201c}", line.as_str());
            s.append(UNKNOWN_CAPABILITY);
            s
        },
    }
}


/// The GitHub topic that module repositories tag themselves with.
pub const MODULE_TOPIC: &'static str = "osap-module";

/// Results per search page: GitHub's maximum.
pub const PER_PAGE: usize = 100;

/// Search pages followed per search: GitHub returns at most 1000 results, and an
/// unauthenticated client may search ten times a minute.
pub const MAX_PAGES: usize = 10;

#[verifier::external_type_specification]
#[verifier::external_body]
pub struct ExPathBuf(PathBuf);

/// A module available to install: a GitHub repository tagged [`MODULE_TOPIC`].
pub struct RemoteModule {
    /// owner/repo
    pub full_name: String,
    pub description: String,
    pub stars: u64,
    pub default_branch: String,
    pub updated_at: String,
}

/// Where a module was installed from, as `.source.toml` in its folder records it.
#[derive(Clone, Debug, PartialEq, Eq)]
pub struct Source {
    pub repo: String,
    pub branch: String,
    pub sha: String,
}

/// An installed module, in the portable modules folder.
pub struct InstalledModule {
    pub id: String,
    pub name: String,
    pub version: String,
    pub dir: PathBuf,
    /// Ids it declares as dependencies.
    pub dependencies: Vec<String>,
    /// Ids it can use when they are present.
    pub optional_dependencies: Vec<String>,
    /// What it declares under `[capabilities] require`.
    pub capabilities: Vec<String>,
    /// Where it was installed from, if it came from GitHub.
    pub source: Option<Source>,
    /// What its manifest claims about operating systems, verbatim.
    pub supported_os: Vec<String>,
}

pub open spec fn ascii_alnum(c: char) -> bool {
    ('0' <= c && c <= '9') || ('a' <= c && c <= 'z') || ('A' <= c && c <= 'Z')
}

pub open spec fn hex_digit(c: char) -> bool {
    ('0' <= c && c <= '9') || ('a' <= c && c <= 'f') || ('A' <= c && c <= 'F')
}

/// An owner as GitHub spells one: 1 to 39 letters, digits and `-`.
pub open spec fn owner_ok(o: Seq<char>) -> bool {
    0 < o.len() <= 39 && forall|i: int| 0 <= i < o.len() ==> ascii_alnum(#[trigger] o[i]) || o[i] == '-'
}

/// A repository name as GitHub spells one: 1 to 100 letters, digits, `-`, `_` and `.`, not
/// starting with `.`.
pub open spec fn repo_ok(r: Seq<char>) -> bool {
    &&& 0 < r.len() <= 100
    &&& r[0] != '.'
    &&& forall|i: int| 0 <= i < r.len() ==> ascii_alnum(#[trigger] r[i]) || r[i] == '-' || r[i] == '_' || r[i] == '.'
}

/// `owner/repo`, split at the first `/`, each half as GitHub spells it.
pub open spec fn repo_name_ok(s: Seq<char>) -> bool {
    exists|k: int|
        0 <= k < s.len() && #[trigger] s[k] == '/' && (forall|i: int| 0 <= i < k ==> s[i] != '/') && owner_ok(
            s.take(k),
        ) && repo_ok(s.skip(k + 1))
}

/// What refusing a repository name says.
pub open spec fn bad_repo_text(s: Seq<char>) -> Seq<char> {
    "\u{201c}"@ + s + BAD_REPO@
}

pub const BAD_REPO: &'static str = "\u{201d} is not a GitHub repository name (owner/repo)";

fn is_ascii_alnum(c: char) -> (r: bool)
    ensures
        r == ascii_alnum(c),
{
    ('0' <= c && c <= '9') || ('a' <= c && c <= 'z') || ('A' <= c && c <= 'Z')
}

/// Refuses anything but `owner/repo` in GitHub's own spelling: the repository name becomes
/// the install folder and both halves go into URL paths, so `owner/..` never installs over
/// the modules folder's parent.
pub fn check_repo(full_name: &str) -> (r: Result<(), String>)
    ensures
        r is Ok <==> repo_name_ok(full_name@),
        r matches Err(msg) ==> msg@ == bad_repo_text(full_name@),
{
    let cs = chars_of(full_name);
    let n = cs.len();
    let mut k: usize = 0;
    while k < n && cs[k] != '/'
        invariant
            cs@ == full_name@,
            n == cs@.len(),
            k <= n,
            forall|i: int| 0 <= i < k ==> cs@[i] != '/',
        decreases n - k,
    {
        k += 1;
    }
    if k >= n {
        proof {
            if repo_name_ok(full_name@) {
                let w = choose|w: int|
                    0 <= w < full_name@.len() && #[trigger] full_name@[w] == '/' && (forall|i: int| 0 <= i < w ==> full_name@[i] != '/')
                        && owner_ok(full_name@.take(w)) && repo_ok(full_name@.skip(w + 1));
                assert(cs@[w] == '/');
            }
        }
        let mut msg = joined("\u{201c}", full_name);
        msg.append(BAD_REPO);
        return Err(msg);
    }
    let ghost s = full_name@;
    let ghost own = s.take(k as int);
    let ghost rep = s.skip(k + 1);
    let mut owner_good = k > 0 && k <= 39;
    let mut i: usize = 0;
    while i < k
        invariant
            cs@ == s,
            n == cs@.len(),
            k < n,
            i <= k,
            own == s.take(k as int),
            owner_good == (0 < k <= 39 && forall|j: int| 0 <= j < i ==> ascii_alnum(#[trigger] own[j]) || own[j] == '-'),
        decreases k - i,
    {
        assert(own[i as int] == cs@[i as int]);
        if !(is_ascii_alnum(cs[i]) || cs[i] == '-') {
            owner_good = false;
        }
        i += 1;
    }
    let m = n - (k + 1);
    let mut repo_good = m > 0 && m <= 100;
    if repo_good {
        assert(rep[0] == cs@[k + 1]);
        repo_good = cs[k + 1] != '.';
    }
    let mut j: usize = k + 1;
    while j < n
        invariant
            cs@ == s,
            n == cs@.len(),
            k < n,
            m == n - (k + 1),
            k + 1 <= j <= n,
            rep == s.skip(k + 1),
            repo_good == (0 < m <= 100 && rep[0] != '.' && forall|q: int| 0 <= q < j - (k + 1) ==> ascii_alnum(#[trigger] rep[q]) || rep[q] == '-' || rep[q] == '_' || rep[q] == '.'),
        decreases n - j,
    {
        let c = cs[j];
        assert(rep[j - (k + 1)] == c);
        if !(is_ascii_alnum(c) || c == '-' || c == '_' || c == '.') {
            repo_good = false;
        }
        j += 1;
    }
    let ok = owner_good && repo_good;
    proof {
        assert(owner_good == owner_ok(own));
        assert(repo_good == repo_ok(rep));
        if repo_name_ok(s) {
            let w = choose|w: int|
                0 <= w < s.len() && #[trigger] s[w] == '/' && (forall|i: int| 0 <= i < w ==> s[i] != '/') && owner_ok(s.take(w))
                    && repo_ok(s.skip(w + 1));
            assert(cs@[w] == '/');
            assert(w == k as int);
        }
        if ok {
            assert(s[k as int] == '/');
            assert(repo_name_ok(s));
        }
    }
    if ok {
        Ok(())
    } else {
        let mut msg = joined("\u{201c}", full_name);
        msg.append(BAD_REPO);
        Err(msg)
    }
}


/// The search for the module topic, narrowed by free text.
pub open spec fn topic_query_of(q: Seq<char>) -> Seq<char> {
    if trim(q).len() == 0 {
        "topic:"@ + MODULE_TOPIC@
    } else {
        "topic:"@ + MODULE_TOPIC@ + " "@ + trim(q)
    }
}

/// The search for the module topic, narrowed by free text.
pub fn topic_query(query: &str) -> (r: String)
    ensures
        r@ == topic_query_of(query@),
{
    let t = trimmed(query);
    let mut r = joined("topic:", MODULE_TOPIC);
    if t.unicode_len() > 0 {
        r.append(" ");
        r.append(t.as_str());
    }
    r
}

/// What follows the last `/` of `s`, or all of `s` when it has none.
pub open spec fn after_last_slash(s: Seq<char>) -> Seq<char>
    decreases s.len(),
{
    if s.len() == 0 {
        s
    } else if s.last() == '/' {
        Seq::empty()
    } else {
        after_last_slash(s.drop_last()).push(s.last())
    }
}

/// The folder a repository installs into: the repository's own name.
pub fn repo_name(full_name: &str) -> (r: &str)
    ensures
        r@ == after_last_slash(full_name@),
{
    let cs = chars_of(full_name);
    let n = cs.len();
    let mut b: usize = n;
    assert(cs@.take(n as int) =~= cs@);
    assert(cs@.subrange(n as int, n as int) =~= Seq::<char>::empty());
    while b > 0 && cs[b - 1] != '/'
        invariant
            cs@ == full_name@,
            n == cs@.len(),
            b <= n,
            after_last_slash(full_name@) == after_last_slash(cs@.take(b as int)) + cs@.subrange(b as int, n as int),
        decreases b,
    {
        proof {
            let t = cs@.take(b as int);
            assert(t.drop_last() =~= cs@.take(b - 1));
            assert(t.last() == cs@[b - 1]);
            assert(cs@.subrange(b - 1, n as int) =~= seq![cs@[b - 1]] + cs@.subrange(b as int, n as int));
            assert(after_last_slash(cs@.take(b - 1)).push(cs@[b - 1]) + cs@.subrange(b as int, n as int)
                =~= after_last_slash(cs@.take(b - 1)) + cs@.subrange(b - 1, n as int));
        }
        b -= 1;
    }
    proof {
        if b > 0 {
            assert(cs@.take(b as int).last() == '/');
        }
        assert(after_last_slash(cs@.take(b as int)) =~= Seq::<char>::empty());
        assert(Seq::<char>::empty() + cs@.subrange(b as int, n as int) =~= cs@.subrange(b as int, n as int));
    }
    full_name.substring_char(b, n)
}

/// A commit id as GitHub prints it: forty hexadecimal digits.
pub open spec fn sha_ok(s: Seq<char>) -> bool {
    s.len() == 40 && forall|i: int| 0 <= i < s.len() ==> hex_digit(#[trigger] s[i])
}

/// What refusing a commit id says.
pub open spec fn bad_sha_text(s: Seq<char>) -> Seq<char> {
    "GitHub answered "@ + debug_text(s) + " where a commit id was expected"@
}

/// A commit id as GitHub prints it, checked because it goes into the URLs a module is
/// downloaded from.
pub fn check_sha(sha: &str) -> (r: Result<(), String>)
    ensures
        r is Ok <==> sha_ok(sha@),
        r matches Err(msg) ==> msg@ == bad_sha_text(sha@),
{
    let cs = chars_of(sha);
    let mut ok = cs.len() == 40;
    let mut i: usize = 0;
    while i < cs.len()
        invariant
            cs@ == sha@,
            i <= cs@.len(),
            ok == (cs@.len() == 40 && forall|j: int| 0 <= j < i ==> hex_digit(#[trigger] cs@[j])),
        decreases cs@.len() - i,
    {
        let c = cs[i];
        if !(('0' <= c && c <= '9') || ('a' <= c && c <= 'f') || ('A' <= c && c <= 'F')) {
            ok = false;
        }
        i += 1;
    }
    if ok {
        Ok(())
    } else {
        let q = debug_quoted(sha);
        let mut msg = joined("GitHub answered ", q.as_str());
        msg.append(" where a commit id was expected");
        Err(msg)
    }
}

/// Whether a search page of `items` results, page `page` (from 1) of a search that found
/// `total` repositories, may be followed by another: it was full, more were found than the
/// pages so far hold, and fewer than [`MAX_PAGES`] were read.
pub open spec fn another_page_after(items: usize, page: usize, total: u64) -> bool {
    items == PER_PAGE && page * PER_PAGE < total && page < MAX_PAGES
}

pub fn another_page(items: usize, page: usize, total: u64) -> (r: bool)
    ensures
        r == another_page_after(items, page, total),
{
    items == PER_PAGE && (page as u128) * (PER_PAGE as u128) < (total as u128) && page < MAX_PAGES
}

/// The names of `v`.
pub open spec fn names(v: Seq<RemoteModule>) -> Seq<Seq<char>> {
    v.map_values(|r: RemoteModule| r.full_name@)
}

/// The modules of `items` whose name is not in `known` nor earlier in `items`, in order.
pub open spec fn fresh(known: Seq<Seq<char>>, items: Seq<RemoteModule>) -> Seq<RemoteModule>
    decreases items.len(),
{
    if items.len() == 0 {
        Seq::empty()
    } else if known.contains(items[0].full_name@) {
        fresh(known, items.drop_first())
    } else {
        seq![items[0]] + fresh(known.push(items[0].full_name@), items.drop_first())
    }
}

/// Whether a module named `name` is in `v`.
fn named_in(v: &Vec<RemoteModule>, name: &String) -> (r: bool)
    ensures
        r == names(v@).contains(name@),
{
    let mut i: usize = 0;
    while i < v.len()
        invariant
            i <= v@.len(),
            forall|j: int| 0 <= j < i ==> names(v@)[j] != name@,
        decreases v@.len() - i,
    {
        if v[i].full_name == *name {
            assert(names(v@)[i as int] == name@);
            return true;
        }
        i += 1;
    }
    false
}

/// Adds a search page's modules to what the search found, each repository once: one can
/// move between pages while they are fetched, as stars change.
pub fn add_page(out: &mut Vec<RemoteModule>, items: Vec<RemoteModule>)
    ensures
        final(out)@ == old(out)@ + fresh(names(old(out)@), items@),
{
    let ghost target = out@ + fresh(names(out@), items@);
    let ghost all = items@;
    let mut items = items;
    let n = items.len();
    let mut k: usize = 0;
    assert(all.skip(0) =~= all);
    assert(out@ + fresh(names(out@), all.skip(0)) == target);
    while items.len() > 0
        invariant
            items@ == all.skip(k as int),
            k <= all.len(),
            n == all.len(),
            out@ + fresh(names(out@), all.skip(k as int)) == target,
        decreases items@.len(),
    {
        let r = items.remove(0);
        let ghost o0 = out@;
        let ghost rest = all.skip(k + 1);
        proof {
            assert(all.skip(k as int)[0] == r);
            assert(all.skip(k as int).drop_first() =~= rest);
        }
        if !named_in(out, &r.full_name) {
            out.push(r);
            proof {
                assert(names(out@) =~= names(o0).push(out@.last().full_name@));
                assert(o0 + (seq![out@.last()] + fresh(names(out@), rest)) =~= out@ + fresh(names(out@), rest));
            }
        }
        k += 1;
    }
    assert(all.skip(k as int) =~= Seq::<RemoteModule>::empty());
    assert(out@ + Seq::<RemoteModule>::empty() =~= out@);
}

/// Whether version `a` comes after version `b` in semver's order (`semver::Version` parsed
/// from each and compared with `>`), or `None` when either is not a semver version.
pub uninterp spec fn semver_after(a: Seq<char>, b: Seq<char>) -> Option<bool>;

/// `semver::Version::parse` on both texts, then `>` on the two versions: which comes later,
/// or `None` when either fails to parse. What it claims beyond that name: a version never
/// comes after itself (the order is a total order).
#[verifier::external_body]
fn version_after(a: &str, b: &str) -> (r: Option<bool>)
    ensures
        r == semver_after(a@, b@),
        a@ == b@ ==> r != Some(true),
{
    match (semver::Version::parse(a), semver::Version::parse(b)) {
        (Ok(x), Ok(y)) => Some(x > y),
        _ => None,
    }
}

/// What an installed module's version says against its upstream manifest's.
pub enum UpdateCheck {
    /// Upstream has a newer version: this one.
    Newer(String),
    /// Upstream is not newer.
    Current,
    /// One of the versions is not semver: the commits decide.
    ByCommit,
}

/// Whether upstream version `upstream` is an update of the installed `installed`: newer by
/// semver, not newer, or not comparable (then the commits decide, see [`newer_commit`]).
pub fn check_versions(upstream: String, installed: &str) -> (r: UpdateCheck)
    ensures
        match semver_after(upstream@, installed@) {
            Some(true) => r == UpdateCheck::Newer(upstream),
            Some(false) => r is Current,
            None => r is ByCommit,
        },
{
    match version_after(upstream.as_str(), installed) {
        Some(true) => UpdateCheck::Newer(upstream),
        Some(false) => UpdateCheck::Current,
        None => UpdateCheck::ByCommit,
    }
}

/// When the versions cannot be compared: the latest commit of the branch is an update when
/// GitHub named one and it is not the one installed.
pub fn newer_commit(latest: String, installed_sha: &str) -> (r: Option<String>)
    ensures
        r == if latest@.len() > 0 && latest@ != installed_sha@ {
            Some(latest)
        } else {
            None::<String>
        },
{
    if latest.unicode_len() > 0 && !same_text(latest.as_str(), installed_sha) {
        Some(latest)
    } else {
        None
    }
}


/// Where a repository's files are read from without downloading it.
pub const RAW: &'static str = "https://raw.githubusercontent.com";

/// The bytes a branch cannot carry as themselves in a URL path: the controls, the space, and
/// `"` `#` `%` `<` `>` `?` `\` `^` `` ` `` `{` `|` `}` `[` `]`. `/` is not among them.
pub open spec fn escaped_in_path(b: u8) -> bool {
    b < 0x20 || b == 0x7F || b == 0x20 || b == 0x22 || b == 0x23 || b == 0x25 || b == 0x3C || b == 0x3E || b == 0x3F
        || b == 0x5C || b == 0x5E || b == 0x60 || b == 0x7B || b == 0x7C || b == 0x7D || b == 0x5B || b == 0x5D
}

/// An upper-case hexadecimal digit.
pub open spec fn hex_upper(d: nat) -> char {
    if d < 10 {
        crate::text::digit(d)
    } else if d == 10 {
        'A'
    } else if d == 11 {
        'B'
    } else if d == 12 {
        'C'
    } else if d == 13 {
        'D'
    } else if d == 14 {
        'E'
    } else {
        'F'
    }
}

/// One byte as `utf8_percent_encode` writes it: itself when it is ASCII and not in the set,
/// `%` and two upper-case hexadecimal digits otherwise.
pub open spec fn encoded_byte(b: u8) -> Seq<char> {
    if b >= 0x80 || escaped_in_path(b) {
        seq!['%', hex_upper((b / 16) as nat), hex_upper((b % 16) as nat)]
    } else {
        seq![b as char]
    }
}

/// The bytes `bs`, percent-encoded one by one.
pub open spec fn percent_encoded(bs: Seq<u8>) -> Seq<char>
    decreases bs.len(),
{
    if bs.len() == 0 {
        Seq::empty()
    } else {
        percent_encoded(bs.drop_last()) + encoded_byte(bs.last())
    }
}

fn hex_char(d: u8) -> (c: char)
    requires
        d < 16,
    ensures
        c == hex_upper(d as nat),
{
    if d < 10 {
        crate::text::digit_char(d as u64)
    } else if d == 10 {
        'A'
    } else if d == 11 {
        'B'
    } else if d == 12 {
        'C'
    } else if d == 13 {
        'D'
    } else if d == 14 {
        'E'
    } else {
        'F'
    }
}

/// A branch as it goes into a URL path: its UTF-8 bytes, each that is not ASCII or is in the
/// set above percent-encoded, the rule `percent_encoding::utf8_percent_encode` documents.
pub fn encode_ref(git_ref: &str) -> (r: String)
    ensures
        r@ == percent_encoded(vstd::utf8::encode_utf8(git_ref@)),
{
    let bytes = git_ref.as_bytes();
    let mut r = String::new();
    let mut i: usize = 0;
    while i < bytes.len()
        invariant
            bytes@ == vstd::utf8::encode_utf8(git_ref@),
            i <= bytes@.len(),
            r@ == percent_encoded(bytes@.take(i as int)),
        decreases bytes@.len() - i,
    {
        let b = bytes[i];
        let ghost before = r@;
        let esc = b < 0x20 || b == 0x7F || b == 0x20 || b == 0x22 || b == 0x23 || b == 0x25 || b == 0x3C || b == 0x3E
            || b == 0x3F || b == 0x5C || b == 0x5E || b == 0x60 || b == 0x7B || b == 0x7C || b == 0x7D || b == 0x5B
            || b == 0x5D;
        if b >= 0x80 || esc {
            push_char(&mut r, '%');
            push_char(&mut r, hex_char(b / 16));
            push_char(&mut r, hex_char(b % 16));
        } else {
            push_char(&mut r, b as char);
        }
        proof {
            assert(bytes@.take(i + 1).drop_last() =~= bytes@.take(i as int));
            assert(bytes@.take(i + 1).last() == b);
            assert(r@ =~= before + encoded_byte(b));
        }
        i += 1;
    }
    assert(bytes@.take(i as int) =~= bytes@);
    r
}

/// `s` holds `..` somewhere.
pub open spec fn has_two_dots(s: Seq<char>) -> bool {
    exists|i: int| 0 <= i < s.len() - 1 && #[trigger] s[i] == '.' && s[i + 1] == '.'
}

/// Where a repository's `module.toml` at `git_ref` (a commit id, or a branch) is read from,
/// or why it cannot be: the name is not `owner/repo`, or the branch is empty or holds `..`,
/// which git allows in no branch name and which in a path means something else.
pub open spec fn manifest_url_of(full_name: Seq<char>, git_ref: &str) -> Result<Seq<char>, Seq<char>> {
    if !repo_name_ok(full_name) {
        Err(bad_repo_text(full_name))
    } else if git_ref@.len() == 0 || has_two_dots(git_ref@) {
        Err(full_name + ": the branch "@ + debug_text(git_ref@) + " cannot be read over raw.githubusercontent.com"@)
    } else {
        Ok(RAW@ + "/"@ + full_name + "/"@ + percent_encoded(vstd::utf8::encode_utf8(git_ref@)) + "/module.toml"@)
    }
}

fn two_dots(s: &str) -> (r: bool)
    ensures
        r == has_two_dots(s@),
{
    let cs = chars_of(s);
    let mut i: usize = 0;
    while i < cs.len() && i + 1 < cs.len()
        invariant
            cs@ == s@,
            i <= cs@.len(),
            forall|j: int| 0 <= j < i && j < cs@.len() - 1 ==> !(#[trigger] cs@[j] == '.' && cs@[j + 1] == '.'),
        decreases cs@.len() - i,
    {
        if cs[i] == '.' && cs[i + 1] == '.' {
            return true;
        }
        i += 1;
    }
    false
}

/// The URL of a repository's `module.toml` at a commit or branch, checked first.
pub fn manifest_url(full_name: &str, git_ref: &str) -> (r: Result<String, String>)
    ensures
        match (r, manifest_url_of(full_name@, git_ref)) {
            (Ok(a), Ok(b)) => a@ == b,
            (Err(a), Err(b)) => a@ == b,
            _ => false,
        },
{
    match check_repo(full_name) {
        Err(msg) => {
            return Err(msg);
        },
        Ok(()) => {},
    }
    if git_ref.unicode_len() == 0 || two_dots(git_ref) {
        let mut msg = joined(full_name, ": the branch ");
        msg.append(debug_quoted(git_ref).as_str());
        msg.append(" cannot be read over raw.githubusercontent.com");
        return Err(msg);
    }
    let mut url = joined(RAW, "/");
    url.append(full_name);
    url.append("/");
    url.append(encode_ref(git_ref).as_str());
    url.append("/module.toml");
    Ok(url)
}


/// What `toml` reads of a `module.toml`: `None` when the text is not a TOML table, else the
/// text of its top-level `version` key, `None` when there is no such text.
pub uninterp spec fn toml_version(text: Seq<char>) -> Option<Option<Seq<char>>>;

/// `toml::from_str` into a `toml::Table`, then the table's `version` entry as text.
#[verifier::external_body]
fn read_toml_version(text: &str) -> (r: Option<Option<String>>)
    ensures
        match (r, toml_version(text@)) {
            (None, None) => true,
            (Some(None), Some(None)) => true,
            (Some(Some(v)), Some(Some(w))) => v@ == w,
            _ => false,
        },
{
    match toml::from_str::<toml::Table>(text) {
        Ok(t) => Some(t.get("version").and_then(|v| v.as_str()).map(str::to_string)),
        Err(_) => None,
    }
}

/// The `version` a `module.toml` declares, or why there is none.
pub open spec fn version_of(text: Seq<char>) -> Result<Seq<char>, Seq<char>> {
    match toml_version(text) {
        None => Err("reading module.toml"@),
        Some(None) => Err("module.toml has no version"@),
        Some(Some(v)) => Ok(v),
    }
}

/// The `version` a `module.toml` declares: an error when the text is not TOML, or declares no
/// version as text.
pub fn manifest_version(text: &str) -> (r: Result<String, String>)
    ensures
        match r {
            Ok(v) => version_of(text@) == Ok::<Seq<char>, Seq<char>>(v@),
            Err(e) => version_of(text@) == Err::<Seq<char>, Seq<char>>(e@),
        },
{
    match read_toml_version(text) {
        None => Err(<String as StringExecFns>::from_str("reading module.toml")),
        Some(None) => Err(<String as StringExecFns>::from_str("module.toml has no version")),
        Some(Some(v)) => Ok(v),
    }
}
} // verus!
