//! The rewrite engine: substitution over a whole tree, along a selector chain,
//! projection along a chain, and renaming of keys.
use vstd::prelude::*;
use crate::coerce::{coerce, coerced, scalar_text, text_of};
use crate::pattern::{Pattern, replaced_all, replaced_first, regex_found};
use crate::value::{Json, Object, Value, view_entries, view_values, keys_distinct, insert_entry};

verus! {

/// `t` with every string rewritten by `pat` → `rep`, and every scalar
/// rewritten through its text and coerced back; keys stay as they are.
pub open spec fn rewritten_all(t: Json, pat: Seq<char>, rep: Seq<char>) -> Json
    decreases t,
{
    match t {
        Json::Str(s) => Json::Str(replaced_all(pat, s, rep)),
        Json::Array(a) => Json::Array(
            Seq::new(
                a.len(),
                |i: int| if 0 <= i < a.len() { rewritten_all(a[i], pat, rep) } else { Json::Null },
            ),
        ),
        Json::Object(m) => Json::Object(
            Seq::new(
                m.len(),
                |i: int|
                    if 0 <= i < m.len() {
                        (m[i].0, rewritten_all(m[i].1, pat, rep))
                    } else {
                        (Seq::empty(), Json::Null)
                    },
            ),
        ),
        _ => coerced(t, replaced_all(pat, scalar_text(t), rep)),
    }
}

/// Rewrites every string and scalar of `v` by `pat` → `rep`.
pub fn rewrite_all(v: Value, pat: &Pattern, rep: &str) -> (r: Value)
    ensures
        r@ == rewritten_all(v@, pat@, rep@),
    decreases v,
{
    let ghost v0 = v;
    match v {
        Value::String(s) => Value::String(pat.replace_all(s.as_str(), rep)),
        Value::Array(a) => {
            let ghost av = a@;
            let mut out: Vec<Value> = Vec::new();
            for x in it: a.into_iter()
                invariant
                    it.seq() == av,
                    v0 == Value::Array(a),
                    v0 == v,
                    out@.len() == it.index(),
                    forall|j: int|
                        0 <= j < it.index() ==> (#[trigger] out@[j])@ == rewritten_all(av[j]@, pat@, rep@),
            {
                proof {
                    let i = it.index() as int;
                    assert(x == av[i]);
                    assert(decreases_to!(v0 => v0->Array_0));
                    assert(decreases_to!(v0->Array_0 => v0->Array_0@));
                    assert(decreases_to!(av => av[i]));
                    assert(decreases_to!(v0 => x));
                }
                out.push(rewrite_all(x, pat, rep));
            }
            let r = Value::Array(out);
            assert(view_values(out@) =~= rewritten_all(v0@, pat@, rep@)->Array_0);
            r
        },
        Value::Object(o) => {
            let ghost m = o.entries_view();
            let entries = o.into_entries();
            let mut out = Object::new();
            for e in it: entries.into_iter()
                invariant
                    it.seq() == entries@,
                    view_entries(entries@) == m,
                    keys_distinct(m),
                    v0 == Value::Object(o),
                    v0 == v,
                    decreases_to!(o => entries),
                    out.entries_view().len() == it.index(),
                    forall|j: int|
                        0 <= j < it.index() ==> (#[trigger] out.entries_view()[j]) == (m[j].0, rewritten_all(m[j].1, pat@, rep@)),
            {
                let ghost i = it.index() as int;
                proof {
                    assert(e == entries@[i]);
                    assert(decreases_to!(v0 => v0->Object_0));
                    assert(decreases_to!(entries => entries@));
                    assert(decreases_to!(entries@ => entries@[i]));
                    assert(decreases_to!(e => e.1));
                    assert(decreases_to!(v0 => e.1));
                }
                let (k, x) = e;
                let y = rewrite_all(x, pat, rep);
                proof {
                    assert(m[i] == (k@, x@));
                    assert forall|j: int| 0 <= j < out.entries_view().len() implies out.entries_view()[j].0 != k@ by {
                        assert(out.entries_view()[j].0 == m[j].0);
                        assert(m[j].0 != m[i].0);
                    }
                }
                out.insert(k, y);
            }
            let r = Value::Object(out);
            assert(out.entries_view() =~= rewritten_all(v0@, pat@, rep@)->Object_0);
            r
        },
        other => {
            let t = text_of(&other);
            let t2 = pat.replace_all(t.as_str(), rep);
            coerce(other, t2)
        },
    }
}

/// No match of `pat` anywhere in `t`: neither in a string nor in the text of
/// a scalar. Keys do not count, since substitution leaves them alone.
pub open spec fn matches_nowhere(t: Json, pat: Seq<char>) -> bool
    decreases t,
{
    match t {
        Json::Str(s) => !regex_found(pat, s),
        Json::Array(a) => forall|i: int| 0 <= i < a.len() ==> matches_nowhere(#[trigger] a[i], pat),
        Json::Object(m) => forall|i: int| 0 <= i < m.len() ==> matches_nowhere(#[trigger] m[i].1, pat),
        _ => !regex_found(pat, scalar_text(t)),
    }
}

/// Substituting a pattern that matches nowhere in a tree gives back the same
/// tree, with every scalar of the type it had.
pub proof fn lemma_rewrite_all_without_match(t: Json, pat: Seq<char>, rep: Seq<char>)
    requires
        matches_nowhere(t, pat),
    ensures
        rewritten_all(t, pat, rep) == t,
    decreases t,
{
    match t {
        Json::Array(a) => {
            assert forall|i: int| 0 <= i < a.len() implies rewritten_all(a[i], pat, rep) == a[i] by {
                lemma_rewrite_all_without_match(a[i], pat, rep);
            }
            assert(rewritten_all(t, pat, rep)->Array_0 =~= a);
        },
        Json::Object(m) => {
            assert forall|i: int| 0 <= i < m.len() implies rewritten_all(m[i].1, pat, rep) == m[i].1 by {
                lemma_rewrite_all_without_match(m[i].1, pat, rep);
            }
            assert(rewritten_all(t, pat, rep)->Object_0 =~= m);
        },
        _ => {},
    }
}

/// One hop of an address: keys that a pattern finds, or an inclusive range of
/// array indices.
pub enum Selector {
    KeyMatch(Pattern),
    IndexRange(usize, usize),
}

/// The model of a [`Selector`].
pub enum Hop {
    Key(Seq<char>),
    Range(int, int),
}

impl View for Selector {
    type V = Hop;

    open spec fn view(&self) -> Hop {
        match self {
            Selector::KeyMatch(p) => Hop::Key(p@),
            Selector::IndexRange(b, e) => Hop::Range(*b as int, *e as int),
        }
    }
}

/// The model of a selector chain.
pub open spec fn hops(chain: Seq<Selector>) -> Seq<Hop> {
    Seq::new(chain.len(), |i: int| chain[i]@)
}

/// `t` rewritten along `chain`: with no hop left, the whole subtree; a key hop
/// on an object descends into the values under matching keys and keeps the
/// other entries; a range hop, when it is the last one, on an array rewrites
/// the elements in range and keeps the others; anything else yields `Null`.
pub open spec fn rewritten(t: Json, chain: Seq<Hop>, pat: Seq<char>, rep: Seq<char>) -> Json
    decreases t,
{
    if chain.len() == 0 {
        rewritten_all(t, pat, rep)
    } else {
        match chain[0] {
            Hop::Key(k) => match t {
                Json::Object(m) => Json::Object(
                    Seq::new(
                        m.len(),
                        |i: int|
                            if 0 <= i < m.len() {
                                if regex_found(k, m[i].0) {
                                    (m[i].0, rewritten(m[i].1, chain.drop_first(), pat, rep))
                                } else {
                                    m[i]
                                }
                            } else {
                                (Seq::empty(), Json::Null)
                            },
                    ),
                ),
                _ => Json::Null,
            },
            Hop::Range(b, e) => match t {
                Json::Array(a) => if chain.len() == 1 {
                    Json::Array(
                        Seq::new(
                            a.len(),
                            |i: int|
                                if 0 <= i < a.len() {
                                    if b <= i <= e {
                                        rewritten_all(a[i], pat, rep)
                                    } else {
                                        a[i]
                                    }
                                } else {
                                    Json::Null
                                },
                        ),
                    )
                } else {
                    Json::Null
                },
                _ => Json::Null,
            },
        }
    }
}

/// Rewrites `v` along the hops of `chain` from index `from` on.
fn rewrite_from(v: Value, chain: &Vec<Selector>, from: usize, pat: &Pattern, rep: &str) -> (r: Value)
    requires
        from <= chain.len(),
    ensures
        r@ == rewritten(v@, hops(chain@).subrange(from as int, chain@.len() as int), pat@, rep@),
    decreases v,
{
    let ghost rest = hops(chain@).subrange(from as int, chain@.len() as int);
    if from == chain.len() {
        return rewrite_all(v, pat, rep);
    }
    let ghost v0 = v;
    assert(rest.drop_first() =~= hops(chain@).subrange(from + 1, chain@.len() as int));
    match (&chain[from], v) {
        (Selector::KeyMatch(k), Value::Object(o)) => {
            let ghost m = o.entries_view();
            let ghost target = rewritten(v0@, rest, pat@, rep@)->Object_0;
            assert(forall|j: int| 0 <= j < m.len() ==> #[trigger] target[j] == if regex_found(k@, m[j].0) {
                (m[j].0, rewritten(m[j].1, rest.drop_first(), pat@, rep@))
            } else {
                m[j]
            });
            let entries = o.into_entries();
            let mut out = Object::new();
            for e in it: entries.into_iter()
                invariant
                    it.seq() == entries@,
                    view_entries(entries@) == m,
                    keys_distinct(m),
                    v0 == Value::Object(o),
                    v0 == v,
                    decreases_to!(o => entries),
                    from < chain.len(),
                    rest.drop_first() == hops(chain@).subrange(from + 1, chain@.len() as int),
                    target.len() == m.len(),
                    forall|j: int| 0 <= j < m.len() ==> #[trigger] target[j] == if regex_found(k@, m[j].0) {
                        (m[j].0, rewritten(m[j].1, rest.drop_first(), pat@, rep@))
                    } else {
                        m[j]
                    },
                    out.entries_view().len() == it.index(),
                    forall|j: int| 0 <= j < it.index() ==> (#[trigger] out.entries_view()[j]) == target[j],
            {
                let ghost i = it.index() as int;
                proof {
                    assert(e == entries@[i]);
                    assert(decreases_to!(v0 => v0->Object_0));
                    assert(decreases_to!(entries => entries@));
                    assert(decreases_to!(entries@ => entries@[i]));
                    assert(decreases_to!(e => e.1));
                    assert(decreases_to!(v0 => e.1));
                }
                let (key, x) = e;
                proof {
                    assert(m[i] == (key@, x@));
                    assert forall|j: int| 0 <= j < out.entries_view().len() implies out.entries_view()[j].0 != key@ by {
                        assert(out.entries_view()[j] == target[j]);
                        assert(m[j].0 != m[i].0);
                    }
                }
                let y = if k.is_match(key.as_str()) {
                    rewrite_from(x, chain, from + 1, pat, rep)
                } else {
                    x
                };
                assert(target[i] == (key@, y@));
                out.insert(key, y);
            }
            let r = Value::Object(out);
            assert(out.entries_view() =~= target);
            r
        },
        (Selector::IndexRange(b, e), Value::Array(a)) => {
            if from + 1 != chain.len() {
                return Value::Null;
            }
            let ghost av = a@;
            let ghost target = rewritten(v0@, rest, pat@, rep@)->Array_0;
            assert(forall|j: int| 0 <= j < av.len() ==> #[trigger] target[j] == if *b <= j <= *e {
                rewritten_all(av[j]@, pat@, rep@)
            } else {
                av[j]@
            });
            let mut out: Vec<Value> = Vec::new();
            for x in it: a.into_iter()
                invariant
                    it.seq() == av,
                    target.len() == av.len(),
                    forall|j: int| 0 <= j < av.len() ==> #[trigger] target[j] == if *b <= j <= *e {
                        rewritten_all(av[j]@, pat@, rep@)
                    } else {
                        av[j]@
                    },
                    out@.len() == it.index(),
                    forall|j: int| 0 <= j < it.index() ==> (#[trigger] out@[j])@ == target[j],
            {
                let i = out.len();
                let y = if *b <= i && i <= *e {
                    rewrite_all(x, pat, rep)
                } else {
                    x
                };
                out.push(y);
            }
            let r = Value::Array(out);
            assert(view_values(out@) =~= target);
            r
        },
        _ => Value::Null,
    }
}

/// Rewrites `v` along `chain`, substituting `pat` → `rep` where the chain
/// leads; with an empty chain, the whole tree.
pub fn rewrite(v: Value, chain: &Vec<Selector>, pat: &Pattern, rep: &str) -> (r: Value)
    ensures
        r@ == rewritten(v@, hops(chain@), pat@, rep@),
{
    assert(hops(chain@).subrange(0, chain@.len() as int) =~= hops(chain@));
    rewrite_from(v, chain, 0, pat, rep)
}

/// The elements of `a` whose index lies in `[b, e]`, in order.
pub open spec fn in_range(a: Seq<Json>, b: int, e: int) -> Seq<Json>
    decreases a.len(),
{
    if a.len() == 0 {
        Seq::empty()
    } else {
        let init = in_range(a.drop_last(), b, e);
        if b <= a.len() - 1 <= e {
            init.push(a.last())
        } else {
            init
        }
    }
}

/// `t` projected along `chain`: only what the chain reaches is kept. A key hop
/// on an object with at least one matching key keeps the matching entries, as
/// they are at the last hop, or by their non-`Null` projections further down;
/// a last range hop on an array keeps the elements in range; anything else,
/// and an empty chain, yields `Null`.
pub open spec fn projected(t: Json, chain: Seq<Hop>) -> Json
    decreases t,
{
    if chain.len() == 0 {
        Json::Null
    } else {
        match chain[0] {
            Hop::Key(k) => match t {
                Json::Object(m) => if exists|i: int| 0 <= i < m.len() && regex_found(k, #[trigger] m[i].0) {
                    Json::Object(projected_entries(m, k, chain.drop_first()))
                } else {
                    Json::Null
                },
                _ => Json::Null,
            },
            Hop::Range(b, e) => match t {
                Json::Array(a) => if chain.len() == 1 {
                    Json::Array(in_range(a, b, e))
                } else {
                    Json::Null
                },
                _ => Json::Null,
            },
        }
    }
}

/// The entries of `m` under keys that `k` finds: as they are when `rest` is
/// empty, else by their projections along `rest`, those that are not `Null`.
pub open spec fn projected_entries(m: Seq<(Seq<char>, Json)>, k: Seq<char>, rest: Seq<Hop>) -> Seq<(Seq<char>, Json)>
    decreases m,
{
    if m.len() == 0 {
        Seq::empty()
    } else {
        let init = projected_entries(m.subrange(0, m.len() - 1), k, rest);
        let key = m[m.len() - 1].0;
        let v = m[m.len() - 1].1;
        if !regex_found(k, key) {
            init
        } else if rest.len() == 0 {
            init.push((key, v))
        } else if projected(v, rest) == Json::Null {
            init
        } else {
            init.push((key, projected(v, rest)))
        }
    }
}

/// Projects `v` along the hops of `chain` from index `from` on.
fn project_from(v: Value, chain: &Vec<Selector>, from: usize) -> (r: Value)
    requires
        from <= chain.len(),
    ensures
        r@ == projected(v@, hops(chain@).subrange(from as int, chain@.len() as int)),
    decreases v,
{
    let ghost rest = hops(chain@).subrange(from as int, chain@.len() as int);
    if from == chain.len() {
        return Value::Null;
    }
    let ghost v0 = v;
    assert(rest.drop_first() =~= hops(chain@).subrange(from + 1, chain@.len() as int));
    let last = from + 1 == chain.len();
    match (&chain[from], v) {
        (Selector::KeyMatch(k), Value::Object(o)) => {
            let ghost m = o.entries_view();
            let ghost tail = rest.drop_first();
            let entries = o.into_entries();
            let mut out = Object::new();
            let mut found = false;
            for e in it: entries.into_iter()
                invariant
                    it.seq() == entries@,
                    view_entries(entries@) == m,
                    keys_distinct(m),
                    v0 == Value::Object(o),
                    v0 == v,
                    decreases_to!(o => entries),
                    from < chain.len(),
                    last == (from + 1 == chain.len()),
                    tail == hops(chain@).subrange(from + 1, chain@.len() as int),
                    found == exists|j: int| 0 <= j < it.index() && regex_found(k@, #[trigger] m[j].0),
                    out.entries_view() == projected_entries(m.take(it.index() as int), k@, tail),
                    forall|j: int|
                        0 <= j < out.entries_view().len() ==> exists|l: int|
                            0 <= l < it.index() && (#[trigger] out.entries_view()[j]).0 == m[l].0,
            {
                let ghost i = it.index() as int;
                proof {
                    assert(e == entries@[i]);
                    assert(decreases_to!(v0 => v0->Object_0));
                    assert(decreases_to!(entries => entries@));
                    assert(decreases_to!(entries@ => entries@[i]));
                    assert(decreases_to!(e => e.1));
                    assert(decreases_to!(v0 => e.1));
                    assert(m.take(i + 1).subrange(0, i) =~= m.take(i));
                }
                let (key, x) = e;
                let ghost xv = x@;
                proof {
                    assert(m[i] == (key@, x@));
                    assert forall|j: int| 0 <= j < out.entries_view().len() implies out.entries_view()[j].0 != key@ by {
                        let l = choose|l: int| 0 <= l < i && (#[trigger] out.entries_view()[j]).0 == m[l].0;
                        assert(m[l].0 != m[i].0);
                    }
                }
                if k.is_match(key.as_str()) {
                    found = true;
                    if last {
                        out.insert(key, x);
                    } else {
                        let y = project_from(x, chain, from + 1);
                        if let Value::Null = y {
                        } else {
                            out.insert(key, y);
                        }
                    }
                }
                proof {
                    assert(found == exists|j: int| 0 <= j < i + 1 && regex_found(k@, #[trigger] m[j].0));
                }
            }
            if !found {
                return Value::Null;
            }
            assert(m.take(m.len() as int) =~= m);
            Value::Object(out)
        },
        (Selector::IndexRange(b, e), Value::Array(a)) => {
            if !last {
                return Value::Null;
            }
            let ghost av = a@;
            let ghost jm = v0@->Array_0;
            let mut out: Vec<Value> = Vec::new();
            let mut idx: usize = 0;
            let n = a.len();
            for x in it: a.into_iter()
                invariant
                    it.seq() == av,
                    av.len() == n,
                    idx == it.index(),
                    jm == view_values(av),
                    view_values(out@) == in_range(jm.take(it.index() as int), *b as int, *e as int),
            {
                let ghost i = it.index() as int;
                proof {
                    assert(jm.take(i + 1).drop_last() =~= jm.take(i));
                    assert(x == av[i]);
                }
                if *b <= idx && idx <= *e {
                    out.push(x);
                }
                assert(view_values(out@) =~= in_range(jm.take(i + 1), *b as int, *e as int));
                idx = idx + 1;
            }
            assert(jm.take(jm.len() as int) =~= jm);
            Value::Array(out)
        },
        _ => Value::Null,
    }
}

/// Projects `v` along `chain`: keeps only what the chain reaches. An empty
/// chain reaches nothing.
pub fn project(v: Value, chain: &Vec<Selector>) -> (r: Value)
    ensures
        r@ == projected(v@, hops(chain@)),
        chain@.len() == 0 ==> r@ == Json::Null,
{
    assert(hops(chain@).subrange(0, chain@.len() as int) =~= hops(chain@));
    project_from(v, chain, 0)
}

/// `t` with the first match of `pat` in every key replaced by `rep`, at every
/// depth. Entries are inserted in the order they had, so where two keys
/// become one, the later entry's value wins.
pub open spec fn renamed_keys(t: Json, pat: Seq<char>, rep: Seq<char>) -> Json
    decreases t,
{
    match t {
        Json::Array(a) => Json::Array(
            Seq::new(
                a.len(),
                |i: int| if 0 <= i < a.len() { renamed_keys(a[i], pat, rep) } else { Json::Null },
            ),
        ),
        Json::Object(m) => Json::Object(renamed_entries(m, pat, rep)),
        _ => t,
    }
}

/// The entries of `m`, renamed and inserted one by one into an empty object.
pub open spec fn renamed_entries(m: Seq<(Seq<char>, Json)>, pat: Seq<char>, rep: Seq<char>) -> Seq<(Seq<char>, Json)>
    decreases m,
{
    if m.len() == 0 {
        Seq::empty()
    } else {
        insert_entry(
            renamed_entries(m.subrange(0, m.len() - 1), pat, rep),
            replaced_first(pat, m[m.len() - 1].0, rep),
            renamed_keys(m[m.len() - 1].1, pat, rep),
        )
    }
}

/// Renames the keys of `v` at every depth, as `renamed_keys` says.
pub fn rename_keys(v: Value, pat: &Pattern, rep: &str) -> (r: Value)
    ensures
        r@ == renamed_keys(v@, pat@, rep@),
    decreases v,
{
    let ghost v0 = v;
    match v {
        Value::Array(a) => {
            let ghost av = a@;
            let mut out: Vec<Value> = Vec::new();
            for x in it: a.into_iter()
                invariant
                    it.seq() == av,
                    v0 == Value::Array(a),
                    v0 == v,
                    out@.len() == it.index(),
                    forall|j: int|
                        0 <= j < it.index() ==> (#[trigger] out@[j])@ == renamed_keys(av[j]@, pat@, rep@),
            {
                proof {
                    let i = it.index() as int;
                    assert(x == av[i]);
                    assert(decreases_to!(v0 => v0->Array_0));
                    assert(decreases_to!(v0->Array_0 => v0->Array_0@));
                    assert(decreases_to!(av => av[i]));
                    assert(decreases_to!(v0 => x));
                }
                out.push(rename_keys(x, pat, rep));
            }
            let r = Value::Array(out);
            assert(view_values(out@) =~= renamed_keys(v0@, pat@, rep@)->Array_0);
            r
        },
        Value::Object(o) => {
            let ghost m = o.entries_view();
            let entries = o.into_entries();
            let mut out = Object::new();
            for e in it: entries.into_iter()
                invariant
                    it.seq() == entries@,
                    view_entries(entries@) == m,
                    v0 == Value::Object(o),
                    v0 == v,
                    decreases_to!(o => entries),
                    out.entries_view() == renamed_entries(m.take(it.index() as int), pat@, rep@),
            {
                let ghost i = it.index() as int;
                proof {
                    assert(e == entries@[i]);
                    assert(decreases_to!(v0 => v0->Object_0));
                    assert(decreases_to!(entries => entries@));
                    assert(decreases_to!(entries@ => entries@[i]));
                    assert(decreases_to!(e => e.1));
                    assert(decreases_to!(v0 => e.1));
                    assert(m.take(i + 1).subrange(0, i) =~= m.take(i));
                }
                let (key, x) = e;
                proof {
                    assert(m[i] == (key@, x@));
                }
                let new_key = pat.replace_first(key.as_str(), rep);
                let y = rename_keys(x, pat, rep);
                out.insert(new_key, y);
            }
            assert(m.take(m.len() as int) =~= m);
            Value::Object(out)
        },
        other => other,
    }
}

}
