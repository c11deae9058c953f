//! Parameters as preset values: a number for every parameter, found by its text.

use vstd::prelude::*;
use vstd::string::*;
use crate::numbers::{HALF, ONE, THREE, TWO, ZERO, lemma_half_between, lemma_small_integers};
use crate::params::{
    fft_index_of, get, key_of, param_key, with, NodeShape, ParamKey, ParamState, ParamValue,
    ResoVoidParams, StereoLink, PARAM_COUNT,
};
use crate::single::Single;
use crate::text::digit;

verus! {

/// A text and a number, for every entry of a preset.
pub type Entries = Seq<(Seq<char>, Single)>;

/// The entries that a list holds.
pub open spec fn entries(v: Seq<(String, Single)>) -> Entries {
    v.map_values(|e: (String, Single)| (e.0@, e.1))
}

/// The number that stands for a value.
pub open spec fn encoded(v: ParamValue) -> Single {
    match v {
        ParamValue::Number(x) => x,
        ParamValue::Integer(n) => if n <= 0 {
            Single(ZERO)
        } else if n == 1 {
            Single(ONE)
        } else if n == 2 {
            Single(TWO)
        } else {
            Single(THREE)
        },
        ParamValue::Flag(on) => if on {
            Single(ONE)
        } else {
            Single(ZERO)
        },
        ParamValue::Shape(s) => match s {
            NodeShape::Bell => Single(ZERO),
            NodeShape::LowShelf => Single(ONE),
            NodeShape::HighShelf => Single(TWO),
        },
        ParamValue::Link(l) => match l {
            StereoLink::Linked => Single(ZERO),
            StereoLink::Independent => Single(ONE),
        },
    }
}

/// The value of a parameter that a number stands for.
pub open spec fn decoded(key: ParamKey, x: Single) -> ParamValue {
    match key {
        ParamKey::FftSize => ParamValue::Integer(fft_index_of(x.int_near()) as i32),
        ParamKey::SoftMode => ParamValue::Flag(Single(HALF).below(x)),
        ParamKey::Delta => ParamValue::Flag(Single(HALF).below(x)),
        ParamKey::Oversampling => ParamValue::Flag(Single(HALF).below(x)),
        ParamKey::NodeEnabled(_) => ParamValue::Flag(Single(HALF).below(x)),
        ParamKey::NodeShape(_) => ParamValue::Shape(
            if x.int_near() == 1 {
                NodeShape::LowShelf
            } else if x.int_near() == 2 {
                NodeShape::HighShelf
            } else {
                NodeShape::Bell
            },
        ),
        ParamKey::StereoLink => ParamValue::Link(
            if x.int_near() == 1 {
                StereoLink::Independent
            } else {
                StereoLink::Linked
            },
        ),
        _ => ParamValue::Number(x),
    }
}

/// The number that stands for a value.
pub fn encode(v: ParamValue) -> (x: Single)
    ensures
        x == encoded(v),
{
    match v {
        ParamValue::Number(x) => x,
        ParamValue::Integer(n) => if n <= 0 {
            Single(ZERO)
        } else if n == 1 {
            Single(ONE)
        } else if n == 2 {
            Single(TWO)
        } else {
            Single(THREE)
        },
        ParamValue::Flag(on) => if on {
            Single(ONE)
        } else {
            Single(ZERO)
        },
        ParamValue::Shape(s) => match s {
            NodeShape::Bell => Single(ZERO),
            NodeShape::LowShelf => Single(ONE),
            NodeShape::HighShelf => Single(TWO),
        },
        ParamValue::Link(l) => match l {
            StereoLink::Linked => Single(ZERO),
            StereoLink::Independent => Single(ONE),
        },
    }
}

/// The value of a parameter that a number stands for.
pub fn decode(key: ParamKey, x: Single) -> (v: ParamValue)
    ensures
        v == decoded(key, x),
{
    match key {
        ParamKey::FftSize => {
            let n = x.nearest_int();
            ParamValue::Integer(
                if n < 0 {
                    0
                } else if n > 3 {
                    3
                } else {
                    n
                },
            )
        },
        ParamKey::SoftMode => ParamValue::Flag(Single(HALF).lt(x)),
        ParamKey::Delta => ParamValue::Flag(Single(HALF).lt(x)),
        ParamKey::Oversampling => ParamValue::Flag(Single(HALF).lt(x)),
        ParamKey::NodeEnabled(_) => ParamValue::Flag(Single(HALF).lt(x)),
        ParamKey::NodeShape(_) => {
            let n = x.nearest_int();
            ParamValue::Shape(
                if n == 1 {
                    NodeShape::LowShelf
                } else if n == 2 {
                    NodeShape::HighShelf
                } else {
                    NodeShape::Bell
                },
            )
        },
        ParamKey::StereoLink => ParamValue::Link(
            if x.nearest_int() == 1 {
                StereoLink::Independent
            } else {
                StereoLink::Linked
            },
        ),
        _ => ParamValue::Number(x),
    }
}

/// All parameters as the entries of a preset.
pub open spec fn captured(p: ParamState) -> Entries {
    Seq::new(
        PARAM_COUNT as nat,
        |k: int| (key_of(k).id_text(), encoded(get(p, key_of(k)))),
    )
}

/// All parameters as the entries of a preset, each under a text of its own.
pub fn capture_preset(params: &ResoVoidParams) -> (r: Vec<(String, Single)>)
    requires
        0 <= params.fft_size <= 3,
    ensures
        entries(r@) == captured(params@),
        forall|i: int, j: int| 0 <= i < j < r@.len() ==> (#[trigger] r@[i]).0@ != (#[trigger] r@[j]).0@,
{
    let mut r: Vec<(String, Single)> = Vec::new();
    for k in 0..PARAM_COUNT
        invariant
            r@.len() == k,
            forall|m: int|
                0 <= m < k ==> (#[trigger] r@[m]).0@ == key_of(m).id_text() && r@[m].1 == encoded(
                    get(params@, key_of(m)),
                ),
    {
        let key = param_key(k);
        r.push((key.id(), encode(params.value(key))));
    }
    assert(entries(r@) =~= captured(params@));
    proof {
        assert forall|i: int, j: int| 0 <= i < j < r@.len() implies (#[trigger] r@[i]).0@ != (#[trigger] r@[j]).0@ by {
            if key_of(i).id_text() == key_of(j).id_text() {
                lemma_ids_are_distinct(key_of(i), key_of(j));
            }
        }
    }
    r
}

/// The number that a preset holds for a text: that of the first entry under it.
pub open spec fn lookup(values: Entries, id: Seq<char>) -> Option<Single>
    decreases values.len(),
{
    if values.len() == 0 {
        None
    } else if values[0].0 == id {
        Some(values[0].1)
    } else {
        lookup(values.drop_first(), id)
    }
}

fn find(values: &Vec<(String, Single)>, id: &String) -> (r: Option<Single>)
    ensures
        r == lookup(entries(values@), id@),
{
    let ghost all = entries(values@);
    let n: usize = values.len();
    let mut i: usize = 0;
    assert(all.skip(0) =~= all);
    while i < n
        invariant
            n == values@.len(),
            i <= n,
            all == entries(values@),
            lookup(all, id@) == lookup(all.skip(i as int), id@),
        decreases n - i,
    {
        assert(all.skip(i as int).drop_first() =~= all.skip(i + 1));
        assert(all.skip(i as int)[0] == (values@[i as int].0@, values@[i as int].1));
        if values[i].0 == *id {
            return Some(values[i].1);
        }
        i = i + 1;
    }
    None
}

/// What a preset asks to change: every parameter that it holds, in order.
/// Entries that belong to no parameter are passed over, and parameters without
/// an entry stay.
pub open spec fn changes_of(values: Entries) -> Seq<(ParamKey, ParamValue)> {
    asked(values, PARAM_COUNT as int)
}

/// What a preset asks to change among the first `n` parameters.
pub open spec fn asked(values: Entries, n: int) -> Seq<(ParamKey, ParamValue)>
    decreases n,
{
    if n <= 0 {
        seq![]
    } else {
        let key = key_of(n - 1);
        match lookup(values, key.id_text()) {
            Some(x) => asked(values, n - 1).push((key, decoded(key, x))),
            None => asked(values, n - 1),
        }
    }
}

/// What a preset asks to change.
pub fn apply_preset(values: &Vec<(String, Single)>) -> (r: Vec<(ParamKey, ParamValue)>)
    ensures
        r@ == changes_of(entries(values@)),
        forall|k: int| 0 <= k < r@.len() ==> (#[trigger] r@[k]).0.valid(),
{
    let mut r: Vec<(ParamKey, ParamValue)> = Vec::new();
    for k in 0..PARAM_COUNT
        invariant
            r@ == asked(entries(values@), k as int),
            forall|m: int| 0 <= m < r@.len() ==> (#[trigger] r@[m]).0.valid(),
    {
        let key = param_key(k);
        let id = key.id();
        if let Some(x) = find(values, &id) {
            r.push((key, decode(key, x)));
        }
    }
    r
}

// ----- Laws -------------------------------------------------------------------

/// The parameters after a list of changes.
pub open spec fn changed(p: ParamState, changes: Seq<(ParamKey, ParamValue)>) -> ParamState
    decreases changes.len(),
{
    if changes.len() == 0 {
        p
    } else {
        let c = changes.last();
        with(changed(p, changes.drop_last()), c.0, c.1)
    }
}

/// All slots are there, and the window size is one of the four.
pub open spec fn whole(p: ParamState) -> bool {
    &&& p.node_depths.len() == 8
    &&& p.node_freqs.len() == 8
    &&& p.node_enabled.len() == 8
    &&& p.node_shapes.len() == 8
    &&& 0 <= p.fft_size <= 3
}

/// A value that became a number comes back as it was.
pub proof fn lemma_decoded_encoded(p: ParamState, key: ParamKey)
    requires
        whole(p),
    ensures
        decoded(key, encoded(get(p, key))) == get(p, key),
{
    lemma_small_integers();
    lemma_half_between();
}

/// The length and the first characters of a parameter's text.
spec fn mark(key: ParamKey) -> (int, char, char) {
    match key {
        ParamKey::Depth => (5, 'd', 'e'),
        ParamKey::Sharpness => (5, 's', 'h'),
        ParamKey::Selectivity => (3, 's', 'e'),
        ParamKey::Attack => (3, 'a', 't'),
        ParamKey::Release => (3, 'r', 'e'),
        ParamKey::Mix => (3, 'm', 'i'),
        ParamKey::Output => (3, 'o', 'u'),
        ParamKey::NodeDepth(_) => (5, 'n', 'o'),
        ParamKey::NodeFreq(_) => (3, 'n', 'f'),
        ParamKey::FftSize => (3, 'f', 'f'),
        ParamKey::SoftMode => (4, 'm', 'o'),
        ParamKey::Delta => (4, 'd', 'e'),
        ParamKey::Oversampling => (4, 'o', 's'),
        ParamKey::NodeEnabled(_) => (4, 'n', 'e'),
        ParamKey::NodeShape(_) => (4, 'n', 's'),
        ParamKey::StereoLink => (4, 's', 'l'),
    }
}

proof fn lemma_mark(key: ParamKey)
    ensures
        key.id_text().len() == mark(key).0,
        key.id_text()[0] == mark(key).1,
        key.id_text()[1] == mark(key).2,
        key.slot() matches Some(j) ==> key.id_text().last() == digit(j as nat),
{
    reveal_strlit("depth");
    reveal_strlit("sharp");
    reveal_strlit("sel");
    reveal_strlit("atk");
    reveal_strlit("rel");
    reveal_strlit("mix");
    reveal_strlit("out");
    reveal_strlit("node");
    reveal_strlit("nf");
    reveal_strlit("fft");
    reveal_strlit("mode");
    reveal_strlit("delt");
    reveal_strlit("os2x");
    reveal_strlit("nen");
    reveal_strlit("nsh");
    reveal_strlit("slnk");
}

/// No two parameters share a text.
pub proof fn lemma_ids_are_distinct(a: ParamKey, b: ParamKey)
    requires
        a.valid(),
        b.valid(),
        a.id_text() == b.id_text(),
    ensures
        a == b,
{
    lemma_mark(a);
    lemma_mark(b);
}

proof fn lemma_lookup_captured(p: ParamState, k: int)
    requires
        0 <= k < PARAM_COUNT,
    ensures
        lookup(captured(p), key_of(k).id_text()) == Some(encoded(get(p, key_of(k)))),
{
    lemma_lookup_from(p, k, 0);
    assert(captured(p).skip(0) =~= captured(p));
}

proof fn lemma_lookup_from(p: ParamState, k: int, i: int)
    requires
        0 <= i <= k < PARAM_COUNT,
    ensures
        lookup(captured(p).skip(i), key_of(k).id_text()) == Some(encoded(get(p, key_of(k)))),
    decreases k - i,
{
    let rest = captured(p).skip(i);
    assert(rest[0] == captured(p)[i]);
    if i < k {
        if key_of(i).id_text() == key_of(k).id_text() {
            lemma_ids_are_distinct(key_of(i), key_of(k));
        }
        assert(rest.drop_first() =~= captured(p).skip(i + 1));
        lemma_lookup_from(p, k, i + 1);
    }
}

/// Capturing all parameters and applying what was captured sets every parameter
/// to what it was, whatever the parameters are by then.
pub proof fn lemma_preset_round_trip(p: ParamState, now: ParamState)
    requires
        whole(p),
        whole(now),
    ensures
        changed(now, changes_of(captured(p))) == p,
{
    lemma_applied_so_far(p, now, PARAM_COUNT as int);
    let after = changed(now, changes_of(captured(p)));
    assert forall|j: int| 0 <= j < 8 implies after.node_depths[j] == p.node_depths[j]
        && after.node_freqs[j] == p.node_freqs[j] && after.node_enabled[j] == p.node_enabled[j]
        && after.node_shapes[j] == p.node_shapes[j] by {
        assert(get(after, key_of(7 + j)) == get(p, key_of(7 + j)));
        assert(get(after, key_of(15 + j)) == get(p, key_of(15 + j)));
        assert(get(after, key_of(27 + j)) == get(p, key_of(27 + j)));
        assert(get(after, key_of(35 + j)) == get(p, key_of(35 + j)));
    }
    assert(get(after, key_of(0)) == get(p, key_of(0)));
    assert(get(after, key_of(1)) == get(p, key_of(1)));
    assert(get(after, key_of(2)) == get(p, key_of(2)));
    assert(get(after, key_of(3)) == get(p, key_of(3)));
    assert(get(after, key_of(4)) == get(p, key_of(4)));
    assert(get(after, key_of(5)) == get(p, key_of(5)));
    assert(get(after, key_of(6)) == get(p, key_of(6)));
    assert(get(after, key_of(23)) == get(p, key_of(23)));
    assert(get(after, key_of(24)) == get(p, key_of(24)));
    assert(get(after, key_of(25)) == get(p, key_of(25)));
    assert(get(after, key_of(26)) == get(p, key_of(26)));
    assert(get(after, key_of(43)) == get(p, key_of(43)));
    assert(after =~= p);
}

proof fn lemma_keys_differ(i: int, j: int)
    requires
        0 <= i < j < PARAM_COUNT,
    ensures
        key_of(i) != key_of(j),
        key_of(i).valid(),
        key_of(j).valid(),
{
}

/// Changing one parameter to what it is elsewhere leaves all others alone.
pub proof fn lemma_change_is_local(p: ParamState, key: ParamKey, other: ParamKey, source: ParamState)
    requires
        whole(p),
        whole(source),
        key.valid(),
        other.valid(),
    ensures
        whole(with(p, key, get(source, key))),
        get(with(p, key, get(source, key)), other) == if other == key {
            get(source, key)
        } else {
            get(p, other)
        },
{
}

proof fn lemma_key_valid(k: int)
    requires
        0 <= k < PARAM_COUNT,
    ensures
        key_of(k).valid(),
{
}

proof fn lemma_applied_so_far(p: ParamState, now: ParamState, n: int)
    requires
        whole(p),
        whole(now),
        0 <= n <= PARAM_COUNT,
    ensures
        whole(changed(now, asked(captured(p), n))),
        forall|k: int|
            0 <= k < n ==> get(changed(now, asked(captured(p), n)), #[trigger] key_of(k)) == get(
                p,
                key_of(k),
            ),
    decreases n,
{
    if n > 0 {
        lemma_applied_so_far(p, now, n - 1);
        lemma_lookup_captured(p, n - 1);
        let key = key_of(n - 1);
        lemma_key_valid(n - 1);
        lemma_decoded_encoded(p, key);
        let before = asked(captured(p), n - 1);
        let c = (key, get(p, key));
        assert(before.push(c).drop_last() =~= before);
        assert(asked(captured(p), n) == before.push(c));
        let mid = changed(now, before);
        let after = with(mid, key, get(p, key));
        assert(changed(now, asked(captured(p), n)) == after);
        lemma_change_is_local(mid, key, key, p);
        assert forall|k: int| 0 <= k < n implies get(after, #[trigger] key_of(k)) == get(
            p,
            key_of(k),
        ) by {
            if k < n - 1 {
                assert(get(mid, key_of(k)) == get(p, key_of(k)));
                lemma_keys_differ(k, n - 1);
                lemma_change_is_local(mid, key, key_of(k), p);
            }
        }
    }
}

/// Entries under a text of no parameter change nothing.
pub proof fn lemma_unknown_entries_are_passed_over(values: Entries, id: Seq<char>, x: Single)
    requires
        forall|k: int| 0 <= k < PARAM_COUNT ==> (#[trigger] key_of(k)).id_text() != id,
    ensures
        changes_of(seq![(id, x)] + values) == changes_of(values),
{
    lemma_asked_passes_over(values, id, x, PARAM_COUNT as int);
}

proof fn lemma_asked_passes_over(values: Entries, id: Seq<char>, x: Single, n: int)
    requires
        0 <= n <= PARAM_COUNT,
        forall|k: int| 0 <= k < PARAM_COUNT ==> (#[trigger] key_of(k)).id_text() != id,
    ensures
        asked(seq![(id, x)] + values, n) == asked(values, n),
    decreases n,
{
    if n > 0 {
        lemma_asked_passes_over(values, id, x, n - 1);
        let longer = seq![(id, x)] + values;
        assert(longer[0] == (id, x));
        assert(longer.drop_first() =~= values);
        assert(key_of(n - 1).id_text() != id);
    }
}

} // verus!
