//! Layer lists: one model name per layer, written with commas between.
use vstd::prelude::*;
use vstd::string::*;
use crate::models::{lemma_names_round_trip, ModelKind, ModelRestriction};

verus! {

/// The pieces of `s` between its commas. There is always at least one, and
/// a piece may be empty.
pub open spec fn split_commas(s: Seq<char>) -> Seq<Seq<char>>
    decreases s.len(),
{
    if s.len() == 0 {
        seq![Seq::empty()]
    } else {
        let head = split_commas(s.drop_last());
        if s.last() == ',' {
            head.push(Seq::empty())
        } else {
            head.drop_last().push(head.last().push(s.last()))
        }
    }
}

/// The pieces written one after the other with a comma between each two.
pub open spec fn join_commas(names: Seq<Seq<char>>) -> Seq<char>
    decreases names.len(),
{
    if names.len() == 0 {
        Seq::empty()
    } else if names.len() == 1 {
        names[0]
    } else {
        join_commas(names.drop_last()).push(',') + names.last()
    }
}

/// What each text of a list holds.
pub open spec fn texts(names: Seq<String>) -> Seq<Seq<char>> {
    Seq::new(names.len(), |i: int| names[i]@)
}

/// The names of a list of kinds.
pub open spec fn names_of(kinds: Seq<ModelKind>) -> Seq<Seq<char>> {
    Seq::new(kinds.len(), |i: int| kinds[i].name_spec())
}

/// The kinds that a list of names calls, if each calls one.
pub open spec fn kinds_named(names: Seq<Seq<char>>) -> Option<Seq<ModelKind>> {
    if forall|i: int| 0 <= i < names.len() ==> (#[trigger] ModelKind::named(names[i])) is Some {
        Some(Seq::new(names.len(), |i: int| ModelKind::named(names[i])->0))
    } else {
        None
    }
}

/// Each name calls a kind; a kind for the root only stands first, and a
/// kind for the leaves only stands last.
pub open spec fn valid_layers(names: Seq<Seq<char>>) -> bool {
    forall|i: int|
        0 <= i < names.len() ==> match #[trigger] ModelKind::named(names[i]) {
            None => false,
            Some(kind) => match kind.restriction_spec() {
                ModelRestriction::Unrestricted => true,
                ModelRestriction::RootOnly => i == 0,
                ModelRestriction::LeafOnly => i == names.len() - 1,
            },
        }
}

/// Cuts a layer list at its commas.
pub fn split_layers(model_spec: &str) -> (names: Vec<String>)
    ensures
        texts(names@) == split_commas(model_spec@),
        names@.len() >= 1,
{
    let n: usize = model_spec.unicode_len();
    let mut names: Vec<String> = Vec::new();
    let mut start: usize = 0;
    let mut i: usize = 0;
    proof {
        assert(model_spec@.take(0) =~= Seq::empty());
        assert(model_spec@.subrange(0, 0) =~= Seq::empty());
        assert(texts(names@).push(Seq::empty()) =~= seq![Seq::<char>::empty()]);
    }
    while i < n
        invariant
            n == model_spec@.len(),
            start <= i <= n,
            split_commas(model_spec@.take(i as int)) == texts(names@).push(
                model_spec@.subrange(start as int, i as int),
            ),
        decreases n - i,
    {
        let c = model_spec.get_char(i);
        proof {
            let t = model_spec@.take(i + 1);
            assert(t.drop_last() =~= model_spec@.take(i as int));
            assert(t.last() == c);
            let head = split_commas(t.drop_last());
            assert(head.last() == model_spec@.subrange(start as int, i as int));
            assert(head.drop_last() =~= texts(names@));
        }
        if c == ',' {
            let piece = String::from_str(model_spec.substring_char(start, i));
            proof {
                assert(texts(names@.push(piece)) =~= texts(names@).push(piece@));
                assert(model_spec@.subrange(i + 1, i + 1) =~= Seq::empty());
            }
            names.push(piece);
            start = i + 1;
        } else {
            proof {
                assert(model_spec@.subrange(start as int, i + 1) =~= model_spec@.subrange(
                    start as int,
                    i as int,
                ).push(c));
            }
        }
        i += 1;
    }
    let piece = String::from_str(model_spec.substring_char(start, n));
    proof {
        assert(model_spec@.take(n as int) =~= model_spec@);
        assert(texts(names@.push(piece)) =~= texts(names@).push(piece@));
    }
    names.push(piece);
    names
}

/// Appending text without a comma lengthens the last piece.
pub proof fn lemma_split_append(s: Seq<char>, t: Seq<char>)
    requires
        !t.contains(','),
    ensures
        split_commas(s + t) == split_commas(s).drop_last().push(split_commas(s).last() + t),
        split_commas(s).len() >= 1,
    decreases t.len(),
{
    lemma_split_nonempty(s);
    if t.len() == 0 {
        assert(s + t =~= s);
        assert(split_commas(s).last() + t =~= split_commas(s).last());
        assert(split_commas(s).drop_last().push(split_commas(s).last()) =~= split_commas(s));
    } else {
        let t0 = t.drop_last();
        assert(!t0.contains(',')) by {
            if t0.contains(',') {
                let i = choose|i: int| 0 <= i < t0.len() && t0[i] == ',';
                assert(t[i] == ',');
            }
        }
        assert(t.last() != ',') by {
            if t.last() == ',' {
                assert(t[t.len() - 1] == ',');
            }
        }
        lemma_split_append(s, t0);
        assert((s + t).drop_last() =~= s + t0);
        assert((s + t).last() == t.last());
        let head = split_commas(s + t0);
        assert(head.last().push(t.last()) =~= split_commas(s).last() + t);
        assert(head.drop_last() =~= split_commas(s).drop_last());
    }
}

/// Splitting always gives at least one piece.
pub proof fn lemma_split_nonempty(s: Seq<char>)
    ensures
        split_commas(s).len() >= 1,
    decreases s.len(),
{
    if s.len() > 0 {
        lemma_split_nonempty(s.drop_last());
    }
}

/// Names without commas, joined with commas and split again, come back as
/// they were.
pub proof fn lemma_split_join(names: Seq<Seq<char>>)
    requires
        names.len() >= 1,
        forall|i: int| 0 <= i < names.len() ==> !(#[trigger] names[i]).contains(','),
    ensures
        split_commas(join_commas(names)) == names,
    decreases names.len(),
{
    if names.len() == 1 {
        lemma_split_append(Seq::empty(), names[0]);
        assert(Seq::<char>::empty() + names[0] =~= names[0]);
        assert(split_commas(Seq::empty()) =~= seq![Seq::<char>::empty()]);
        assert(Seq::<char>::empty() + names[0] =~= names[0]);
        assert(seq![Seq::<char>::empty()].drop_last().push(Seq::<char>::empty() + names[0])
            =~= names);
    } else {
        let head = names.drop_last();
        lemma_split_join(head);
        let joined = join_commas(head);
        let with_comma = joined.push(',');
        assert(with_comma.drop_last() =~= joined);
        assert(split_commas(with_comma) == head.push(Seq::empty()));
        lemma_split_append(with_comma, names.last());
        assert(Seq::<char>::empty() + names.last() =~= names.last());
        assert(head.push(Seq::empty()).drop_last().push(Seq::<char>::empty() + names.last())
            =~= names);
    }
}

/// A list of kinds, written out as a layer list and read back, gives the same
/// kinds.
pub proof fn lemma_layers_round_trip(kinds: Seq<ModelKind>)
    requires
        kinds.len() >= 1,
    ensures
        kinds_named(split_commas(join_commas(names_of(kinds)))) == Some(kinds),
{
    let names = names_of(kinds);
    assert forall|i: int| 0 <= i < names.len() implies !(#[trigger] names[i]).contains(',') by {
        lemma_names_round_trip(kinds[i]);
    }
    lemma_split_join(names);
    assert forall|i: int| 0 <= i < names.len() implies (#[trigger] ModelKind::named(names[i]))
        == Some(kinds[i]) by {
        lemma_names_round_trip(kinds[i]);
    }
    assert(Seq::new(names.len(), |i: int| ModelKind::named(names[i])->0) =~= kinds);
}

/// A text cut at its commas and joined again with commas is the text.
pub proof fn lemma_join_split(s: Seq<char>)
    ensures
        join_commas(split_commas(s)) == s,
        split_commas(s).len() >= 1,
    decreases s.len(),
{
    lemma_split_nonempty(s);
    if s.len() == 0 {
        assert(join_commas(seq![Seq::<char>::empty()]) =~= s);
    } else {
        let front = s.drop_last();
        lemma_join_split(front);
        let head = split_commas(front);
        if s.last() == ',' {
            let pieces = head.push(Seq::empty());
            assert(pieces.drop_last() =~= head);
            assert(join_commas(pieces) =~= front.push(','));
            assert(front.push(',') =~= s);
        } else {
            let pieces = head.drop_last().push(head.last().push(s.last()));
            if head.len() == 1 {
                assert(head[0] == front);
                assert(pieces[0] =~= s);
            } else {
                assert(pieces.drop_last() =~= head.drop_last());
                assert(join_commas(head) == join_commas(head.drop_last()).push(',') + head.last());
                assert(join_commas(pieces) =~= (join_commas(head.drop_last()).push(',')
                    + head.last()).push(s.last()));
                assert(front.push(s.last()) =~= s);
            }
        }
    }
}

} // verus!
