//! Environment dispositions: each key carries exactly one current intent,
//! set-to-a-value or explicitly-unset. The builder keeps the entries sorted
//! by key, which makes the serialized order canonical; the lemmas here show
//! that a sorted entry list is determined by the key/disposition mapping it
//! represents.

use vstd::prelude::*;
use crate::lex::{lex_lt, lemma_lex_lt_ne, lemma_lex_lt_asymmetric};

verus! {

/// The recorded treatment of one environment key.
pub enum Disposition {
    /// The variable is to hold this value on the remote side.
    Assign(String),
    /// The variable is to be explicitly cleared on the remote side,
    /// which is distinct from never having been mentioned.
    Unset,
}

pub enum DispositionView {
    Assign(Seq<char>),
    Unset,
}

impl View for Disposition {
    type V = DispositionView;

    open spec fn view(&self) -> DispositionView {
        match self {
            Disposition::Assign(v) => DispositionView::Assign(v@),
            Disposition::Unset => DispositionView::Unset,
        }
    }
}

/// One recorded environment entry.
pub struct EnvEntry {
    pub key: String,
    pub disposition: Disposition,
}

impl View for EnvEntry {
    type V = (Seq<char>, DispositionView);

    open spec fn view(&self) -> (Seq<char>, DispositionView) {
        (self.key@, self.disposition@)
    }
}

impl DeepView for Disposition {
    type V = DispositionView;

    open spec fn deep_view(&self) -> DispositionView {
        self@
    }
}

impl DeepView for EnvEntry {
    type V = (Seq<char>, DispositionView);

    open spec fn deep_view(&self) -> (Seq<char>, DispositionView) {
        self@
    }
}

/// The mapping reached from `m` after recording each pair of `pairs`, in
/// order, as a set-to-value disposition.
pub open spec fn assign_all(
    m: Map<Seq<char>, DispositionView>,
    pairs: Seq<(Seq<char>, Seq<char>)>,
) -> Map<Seq<char>, DispositionView>
    decreases pairs.len(),
{
    if pairs.len() == 0 {
        m
    } else {
        assign_all(m.insert(pairs[0].0, DispositionView::Assign(pairs[0].1)), pairs.skip(1))
    }
}

/// The keys that occur in an entry list.
pub open spec fn entry_keys(s: Seq<(Seq<char>, DispositionView)>) -> Set<Seq<char>> {
    Set::new(|k: Seq<char>| exists|i: int| 0 <= i < s.len() && s[i].0 == k)
}

/// The mapping an entry list stands for; a later entry for a key overrides
/// an earlier one.
pub open spec fn env_map(s: Seq<(Seq<char>, DispositionView)>) -> Map<
    Seq<char>,
    DispositionView,
>
    decreases s.len(),
{
    if s.len() == 0 {
        Map::empty()
    } else {
        env_map(s.drop_last()).insert(s.last().0, s.last().1)
    }
}

/// Keys strictly ascend: the canonical serialization order.
pub open spec fn sorted_keys(s: Seq<(Seq<char>, DispositionView)>) -> bool {
    forall|i: int, j: int|
        0 <= i < j < s.len() ==> #[trigger] lex_lt(s[i].0, s[j].0)
}

pub open spec fn unique_keys(s: Seq<(Seq<char>, DispositionView)>) -> bool {
    forall|i: int, j: int| 0 <= i < j < s.len() ==> (#[trigger] s[i].0) != (#[trigger] s[j].0)
}

pub proof fn lemma_sorted_unique(s: Seq<(Seq<char>, DispositionView)>)
    requires
        sorted_keys(s),
    ensures
        unique_keys(s),
{
    assert forall|i: int, j: int| 0 <= i < j < s.len() implies (#[trigger] s[i].0)
        != (#[trigger] s[j].0) by {
        lemma_lex_lt_ne(s[i].0, s[j].0);
    }
}

pub proof fn lemma_env_map_dom(s: Seq<(Seq<char>, DispositionView)>)
    ensures
        env_map(s).dom() == entry_keys(s),
    decreases s.len(),
{
    if s.len() == 0 {
        assert(env_map(s).dom() =~= entry_keys(s));
    } else {
        let d = s.drop_last();
        lemma_env_map_dom(d);
        assert forall|k: Seq<char>| entry_keys(s).contains(k) implies env_map(
            s,
        ).dom().contains(k) by {
            let i = choose|i: int| 0 <= i < s.len() && s[i].0 == k;
            if i < s.len() - 1 {
                assert(d[i].0 == k);
                assert(entry_keys(d).contains(k));
            }
        }
        assert forall|k: Seq<char>| env_map(s).dom().contains(k) implies entry_keys(s).contains(
            k,
        ) by {
            if k == s.last().0 {
                assert(s[s.len() - 1].0 == k);
            } else {
                assert(entry_keys(d).contains(k));
                let i = choose|i: int| 0 <= i < d.len() && d[i].0 == k;
                assert(s[i].0 == k);
            }
        }
        assert(env_map(s).dom() =~= entry_keys(s));
    }
}

pub proof fn lemma_env_map_index(s: Seq<(Seq<char>, DispositionView)>, i: int)
    requires
        unique_keys(s),
        0 <= i < s.len(),
    ensures
        env_map(s).dom().contains(s[i].0),
        env_map(s)[s[i].0] == s[i].1,
    decreases s.len(),
{
    if i == s.len() - 1 {
    } else {
        let d = s.drop_last();
        assert(d[i] == s[i]);
        lemma_env_map_index(d, i);
        assert(s[i].0 != s[s.len() - 1].0);
    }
}

/// Inserting an entry for a fresh key anywhere in the list adds that pair to
/// the mapping.
pub proof fn lemma_env_map_insert_at(
    s: Seq<(Seq<char>, DispositionView)>,
    i: int,
    k: Seq<char>,
    d: DispositionView,
)
    requires
        0 <= i <= s.len(),
        !entry_keys(s).contains(k),
    ensures
        env_map(s.insert(i, (k, d))) == env_map(s).insert(k, d),
    decreases s.len(),
{
    let t = s.insert(i, (k, d));
    if i == s.len() {
        assert(t.drop_last() =~= s);
        assert(t.last() == (k, d));
    } else {
        assert(t.last() == s.last());
        assert(t.drop_last() =~= s.drop_last().insert(i, (k, d)));
        assert(!entry_keys(s.drop_last()).contains(k)) by {
            if entry_keys(s.drop_last()).contains(k) {
                let j = choose|j: int| 0 <= j < s.drop_last().len() && s.drop_last()[j].0 == k;
                assert(s[j].0 == k);
                assert(entry_keys(s).contains(k));
            }
        }
        lemma_env_map_insert_at(s.drop_last(), i, k, d);
        assert(s[s.len() - 1].0 == s.last().0);
        assert(entry_keys(s).contains(s.last().0));
        assert(s.last().0 != k);
        assert(env_map(t) =~= env_map(s).insert(k, d));
    }
}

/// Overwriting the entry that already holds a key replaces that key's
/// disposition in the mapping.
pub proof fn lemma_env_map_update_at(
    s: Seq<(Seq<char>, DispositionView)>,
    i: int,
    k: Seq<char>,
    d: DispositionView,
)
    requires
        0 <= i < s.len(),
        s[i].0 == k,
        unique_keys(s),
    ensures
        env_map(s.update(i, (k, d))) == env_map(s).insert(k, d),
    decreases s.len(),
{
    let t = s.update(i, (k, d));
    if i == s.len() - 1 {
        assert(t.drop_last() =~= s.drop_last());
        assert(t.last() == (k, d));
        assert(env_map(t) =~= env_map(s).insert(k, d));
    } else {
        assert(t.last() == s.last());
        assert(t.drop_last() =~= s.drop_last().update(i, (k, d)));
        assert(unique_keys(s.drop_last())) by {
            assert forall|x: int, y: int| 0 <= x < y < s.drop_last().len() implies (
            #[trigger] s.drop_last()[x].0) != (#[trigger] s.drop_last()[y].0) by {
                assert(s.drop_last()[x] == s[x]);
                assert(s.drop_last()[y] == s[y]);
            }
        }
        assert(s.drop_last()[i] == s[i]);
        lemma_env_map_update_at(s.drop_last(), i, k, d);
        assert(s.last().0 != k);
        assert(env_map(t) =~= env_map(s).insert(k, d));
    }
}

proof fn lemma_env_map_drop_last(s: Seq<(Seq<char>, DispositionView)>)
    requires
        unique_keys(s),
        s.len() > 0,
    ensures
        env_map(s.drop_last()) == env_map(s).remove(s.last().0),
{
    lemma_env_map_dom(s.drop_last());
    assert(!entry_keys(s.drop_last()).contains(s.last().0)) by {
        if entry_keys(s.drop_last()).contains(s.last().0) {
            let j = choose|j: int|
                0 <= j < s.drop_last().len() && s.drop_last()[j].0 == s.last().0;
            assert(s[j].0 == s[s.len() - 1].0);
        }
    }
    assert(env_map(s.drop_last()) =~= env_map(s).remove(s.last().0));
}

/// A sorted entry list is canonical: two sorted lists that stand for the
/// same mapping are the same list. Serialization therefore cannot see the
/// order in which the keys were inserted.
pub proof fn lemma_env_map_canonical(
    s1: Seq<(Seq<char>, DispositionView)>,
    s2: Seq<(Seq<char>, DispositionView)>,
)
    requires
        sorted_keys(s1),
        sorted_keys(s2),
        env_map(s1) == env_map(s2),
    ensures
        s1 == s2,
    decreases s1.len(),
{
    lemma_env_map_dom(s1);
    lemma_env_map_dom(s2);
    lemma_sorted_unique(s1);
    lemma_sorted_unique(s2);
    if s1.len() == 0 {
        if s2.len() > 0 {
            assert(s2[0].0 == s2[0].0);
            assert(entry_keys(s2).contains(s2[0].0));
            assert(entry_keys(s1).contains(s2[0].0));
            let i = choose|i: int| 0 <= i < s1.len() && s1[i].0 == s2[0].0;
            assert(false);
        }
        assert(s1 =~= s2);
    } else if s2.len() == 0 {
        assert(s1[0].0 == s1[0].0);
        assert(entry_keys(s1).contains(s1[0].0));
        assert(entry_keys(s2).contains(s1[0].0));
        let i = choose|i: int| 0 <= i < s2.len() && s2[i].0 == s1[0].0;
        assert(false);
    } else {
        let k1 = s1.last().0;
        let k2 = s2.last().0;
        assert(s1[s1.len() - 1].0 == k1);
        assert(entry_keys(s1).contains(k1));
        assert(entry_keys(s2).contains(k1));
        let j = choose|j: int| 0 <= j < s2.len() && s2[j].0 == k1;
        assert(s2[s2.len() - 1].0 == k2);
        assert(entry_keys(s2).contains(k2));
        assert(entry_keys(s1).contains(k2));
        let i = choose|i: int| 0 <= i < s1.len() && s1[i].0 == k2;
        if j < s2.len() - 1 {
            assert(lex_lt(k1, k2));
            if i < s1.len() - 1 {
                assert(lex_lt(k2, k1));
                lemma_lex_lt_asymmetric(k1, k2);
                assert(false);
            } else {
                lemma_lex_lt_ne(k1, k2);
                assert(false);
            }
        }
        assert(k1 == k2);
        lemma_env_map_index(s1, s1.len() - 1);
        lemma_env_map_index(s2, s2.len() - 1);
        assert(s1.last().1 == env_map(s1)[k1]);
        assert(s2.last().1 == env_map(s2)[k1]);
        assert(s1.last() == s2.last());
        lemma_env_map_drop_last(s1);
        lemma_env_map_drop_last(s2);
        assert(sorted_keys(s1.drop_last())) by {
            assert forall|x: int, y: int| 0 <= x < y < s1.drop_last().len() implies #[trigger] lex_lt(
                s1.drop_last()[x].0,
                s1.drop_last()[y].0,
            ) by {
                assert(s1.drop_last()[x] == s1[x]);
                assert(s1.drop_last()[y] == s1[y]);
            }
        }
        assert(sorted_keys(s2.drop_last())) by {
            assert forall|x: int, y: int| 0 <= x < y < s2.drop_last().len() implies #[trigger] lex_lt(
                s2.drop_last()[x].0,
                s2.drop_last()[y].0,
            ) by {
                assert(s2.drop_last()[x] == s2[x]);
                assert(s2.drop_last()[y] == s2[y]);
            }
        }
        lemma_env_map_canonical(s1.drop_last(), s2.drop_last());
        assert(s1 =~= s2) by {
            assert(s1.len() == s1.drop_last().len() + 1);
            assert(s2.len() == s2.drop_last().len() + 1);
            assert forall|x: int| 0 <= x < s1.len() implies s1[x] == s2[x] by {
                if x < s1.len() - 1 {
                    assert(s1.drop_last()[x] == s1[x]);
                    assert(s2.drop_last()[x] == s2[x]);
                }
            }
        }
    }
}

} // verus!
