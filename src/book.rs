use vstd::prelude::*;

use crate::entry::{entry_opt, records_model, EntryModel, PhoneEntry, RecordModel};
use crate::order::{
    key_lt, lemma_key_lt_irreflexive, lemma_key_lt_total,
    lemma_key_lt_transitive, chars_of, key_less,
};

verus! {

/// The phone book that a sequence of records describes: each record sets its
/// name, and a later record of the same name replaces an earlier one.
pub open spec fn map_of(rs: Seq<RecordModel>) -> Map<Seq<char>, EntryModel>
    decreases rs.len(),
{
    if rs.len() == 0 {
        Map::empty()
    } else {
        map_of(rs.drop_last()).insert(rs.last().0, rs.last().1)
    }
}

/// Names strictly ascending, hence each name at most once.
pub open spec fn is_sorted(rs: Seq<RecordModel>) -> bool {
    forall|i: int, j: int| 0 <= i < j < rs.len() ==> key_lt(#[trigger] rs[i].0, #[trigger] rs[j].0)
}

/// No name is held by two records.
pub open spec fn distinct_names(rs: Seq<RecordModel>) -> bool {
    forall|i: int, j: int| 0 <= i < j < rs.len() ==> rs[i].0 != rs[j].0
}

/// How many leading records have a name below `k`.
pub open spec fn lower_bound(rs: Seq<RecordModel>, k: Seq<char>) -> nat
    decreases rs.len(),
{
    if rs.len() == 0 {
        0
    } else if key_lt(rs[0].0, k) {
        1 + lower_bound(rs.drop_first(), k)
    } else {
        0
    }
}

/// Sets `k` to `v` in a sorted sequence: the record of that name is replaced,
/// or a new one goes where the order puts it.
pub open spec fn sorted_insert(rs: Seq<RecordModel>, k: Seq<char>, v: EntryModel) -> Seq<
    RecordModel,
> {
    let p = lower_bound(rs, k) as int;
    if p < rs.len() && rs[p].0 == k {
        rs.update(p, (k, v))
    } else {
        rs.insert(p, (k, v))
    }
}

/// Takes the record named `k`, if there is one, out of a sorted sequence.
pub open spec fn sorted_remove(rs: Seq<RecordModel>, k: Seq<char>) -> Seq<RecordModel> {
    let p = lower_bound(rs, k) as int;
    if p < rs.len() && rs[p].0 == k {
        rs.remove(p)
    } else {
        rs
    }
}

/// The sorted sequence that holds what `rs` describes, built by setting each
/// record in turn.
pub open spec fn sorted_of(rs: Seq<RecordModel>) -> Seq<RecordModel>
    decreases rs.len(),
{
    if rs.len() == 0 {
        Seq::empty()
    } else {
        sorted_insert(sorted_of(rs.drop_last()), rs.last().0, rs.last().1)
    }
}

/// What looking `k` up in `m` gives.
pub open spec fn lookup(m: Map<Seq<char>, EntryModel>, k: Seq<char>) -> Option<EntryModel> {
    if m.contains_key(k) {
        Some(m[k])
    } else {
        None
    }
}

pub proof fn lemma_map_of_domain(rs: Seq<RecordModel>, k: Seq<char>)
    ensures
        map_of(rs).contains_key(k) <==> exists|i: int| 0 <= i < rs.len() && rs[i].0 == k,
    decreases rs.len(),
{
    if rs.len() > 0 {
        lemma_map_of_domain(rs.drop_last(), k);
        if map_of(rs).contains_key(k) && rs.last().0 != k {
            let i = choose|i: int| 0 <= i < rs.len() - 1 && rs.drop_last()[i].0 == k;
            assert(rs[i].0 == k);
        }
        if exists|i: int| 0 <= i < rs.len() && rs[i].0 == k {
            let i = choose|i: int| 0 <= i < rs.len() && rs[i].0 == k;
            if i < rs.len() - 1 {
                assert(rs.drop_last()[i].0 == k);
            }
        }
    }
}

/// The value of a name is that of its last record.
pub proof fn lemma_map_of_value(rs: Seq<RecordModel>, i: int)
    requires
        0 <= i < rs.len(),
        forall|j: int| i < j < rs.len() ==> rs[j].0 != rs[i].0,
    ensures
        map_of(rs).contains_key(rs[i].0),
        map_of(rs)[rs[i].0] == rs[i].1,
    decreases rs.len(),
{
    if i < rs.len() - 1 {
        lemma_map_of_value(rs.drop_last(), i);
    }
}

pub proof fn lemma_sorted_distinct(rs: Seq<RecordModel>, i: int, j: int)
    requires
        is_sorted(rs),
        0 <= i < rs.len(),
        0 <= j < rs.len(),
        i != j,
    ensures
        rs[i].0 != rs[j].0,
{
    if i < j {
        lemma_key_lt_irreflexive(rs[i].0);
    } else {
        lemma_key_lt_irreflexive(rs[j].0);
    }
}

/// In a sorted sequence the map holds exactly the records, one per name.
pub proof fn lemma_sorted_map(rs: Seq<RecordModel>, i: int)
    requires
        is_sorted(rs),
        0 <= i < rs.len(),
    ensures
        map_of(rs).contains_key(rs[i].0),
        map_of(rs)[rs[i].0] == rs[i].1,
{
    assert forall|j: int| i < j < rs.len() implies rs[j].0 != rs[i].0 by {
        lemma_sorted_distinct(rs, i, j);
    }
    lemma_map_of_value(rs, i);
}

pub proof fn lemma_lower_bound(rs: Seq<RecordModel>, k: Seq<char>)
    requires
        is_sorted(rs),
    ensures
        lower_bound(rs, k) <= rs.len(),
        forall|j: int| 0 <= j < lower_bound(rs, k) ==> key_lt(#[trigger] rs[j].0, k),
        forall|j: int| lower_bound(rs, k) <= j < rs.len() ==> !key_lt(#[trigger] rs[j].0, k),
    decreases rs.len(),
{
    if rs.len() > 0 {
        let t = rs.drop_first();
        assert(is_sorted(t)) by {
            assert forall|i: int, j: int| 0 <= i < j < t.len() implies key_lt(
                #[trigger] t[i].0,
                #[trigger] t[j].0,
            ) by {
                assert(t[i] == rs[i + 1] && t[j] == rs[j + 1]);
            }
        }
        lemma_lower_bound(t, k);
        if key_lt(rs[0].0, k) {
            assert forall|j: int| 0 <= j < lower_bound(rs, k) implies key_lt(#[trigger] rs[j].0, k) by {
                if j > 0 {
                    assert(rs[j] == t[j - 1]);
                }
            }
            assert forall|j: int| lower_bound(rs, k) <= j < rs.len() implies !key_lt(#[trigger] rs[j].0, k) by {
                assert(rs[j] == t[j - 1]);
            }
        } else {
            assert forall|j: int| 0 <= j < rs.len() implies !key_lt(#[trigger] rs[j].0, k) by {
                if j > 0 && key_lt(rs[j].0, k) {
                    lemma_key_lt_transitive(rs[0].0, rs[j].0, k);
                }
            }
        }
    }
}

/// A position is the lower bound when all before it are below `k` and the one
/// at it is not.
pub proof fn lemma_lower_bound_at(rs: Seq<RecordModel>, k: Seq<char>, p: int)
    requires
        0 <= p <= rs.len(),
        forall|j: int| 0 <= j < p ==> key_lt(#[trigger] rs[j].0, k),
        p < rs.len() ==> !key_lt(rs[p].0, k),
    ensures
        lower_bound(rs, k) == p,
    decreases rs.len(),
{
    if rs.len() > 0 && p > 0 {
        let t = rs.drop_first();
        assert forall|j: int| 0 <= j < p - 1 implies key_lt(#[trigger] t[j].0, k) by {
            assert(t[j] == rs[j + 1]);
        }
        lemma_lower_bound_at(t, k, p - 1);
    }
}

/// Setting a name in a sorted sequence keeps it sorted and sets the name in
/// the map it describes.
pub proof fn lemma_sorted_insert(rs: Seq<RecordModel>, k: Seq<char>, v: EntryModel)
    requires
        is_sorted(rs),
    ensures
        is_sorted(sorted_insert(rs, k, v)),
        map_of(sorted_insert(rs, k, v)) == map_of(rs).insert(k, v),
{
    lemma_lower_bound(rs, k);
    let p = lower_bound(rs, k) as int;
    let out = sorted_insert(rs, k, v);
    if p < rs.len() && rs[p].0 == k {
        assert(out == rs.update(p, (k, v)));
        assert forall|i: int, j: int| 0 <= i < j < out.len() implies key_lt(
            #[trigger] out[i].0,
            #[trigger] out[j].0,
        ) by {
            assert(out[i].0 == rs[i].0 && out[j].0 == rs[j].0);
        }
    } else {
        assert(out == rs.insert(p, (k, v)));
        assert forall|i: int, j: int| 0 <= i < j < out.len() implies key_lt(
            #[trigger] out[i].0,
            #[trigger] out[j].0,
        ) by {
            if j < p {
                assert(out[i] == rs[i] && out[j] == rs[j]);
            } else if j == p {
                assert(out[i] == rs[i]);
            } else if i == p {
                assert(out[j] == rs[j - 1]);
                lemma_key_lt_total(rs[p].0, k);
                if j - 1 > p {
                    lemma_key_lt_transitive(k, rs[p].0, rs[j - 1].0);
                }
            } else if i < p {
                assert(out[i] == rs[i] && out[j] == rs[j - 1]);
            } else {
                assert(out[i] == rs[i - 1] && out[j] == rs[j - 1]);
            }
        }
    }
    assert(is_sorted(out));
    assert forall|q: Seq<char>| #[trigger] map_of(out).contains_key(q) <==> map_of(rs).insert(k, v).contains_key(q) by {
        lemma_map_of_domain(out, q);
        lemma_map_of_domain(rs, q);
        if q != k && map_of(rs).contains_key(q) {
            let i = choose|i: int| 0 <= i < rs.len() && rs[i].0 == q;
            if p < rs.len() && rs[p].0 == k {
                assert(out[i].0 == q);
            } else if i < p {
                assert(out[i] == rs[i]);
            } else {
                assert(out[i + 1] == rs[i]);
            }
        }
        if map_of(out).contains_key(q) && q != k {
            let i = choose|i: int| 0 <= i < out.len() && out[i].0 == q;
            if p < rs.len() && rs[p].0 == k {
                assert(rs[i].0 == q);
            } else if i < p {
                assert(rs[i] == out[i]);
            } else if i > p {
                assert(rs[i - 1] == out[i]);
            }
        }
        if q == k {
            if p < rs.len() && rs[p].0 == k {
                assert(out[p].0 == q);
            } else {
                assert(out[p].0 == q);
            }
        }
    }
    assert forall|q: Seq<char>| #[trigger] map_of(out).contains_key(q) implies map_of(out)[q] == map_of(rs).insert(k, v)[q] by {
        lemma_map_of_domain(out, q);
        let i = choose|i: int| 0 <= i < out.len() && out[i].0 == q;
        lemma_sorted_map(out, i);
        if q != k {
            if p < rs.len() && rs[p].0 == k {
                assert(rs[i] == out[i]);
                lemma_sorted_map(rs, i);
            } else if i < p {
                assert(rs[i] == out[i]);
                lemma_sorted_map(rs, i);
            } else {
                assert(rs[i - 1] == out[i]);
                lemma_sorted_map(rs, i - 1);
            }
        } else {
            if i != p {
                lemma_sorted_distinct(out, i, p);
            }
        }
    }
    assert(map_of(out) =~= map_of(rs).insert(k, v));
}

/// Taking a name out of a sorted sequence keeps it sorted and removes the name
/// from the map it describes.
pub proof fn lemma_sorted_remove(rs: Seq<RecordModel>, k: Seq<char>)
    requires
        is_sorted(rs),
    ensures
        is_sorted(sorted_remove(rs, k)),
        map_of(sorted_remove(rs, k)) == map_of(rs).remove(k),
{
    lemma_lower_bound(rs, k);
    let p = lower_bound(rs, k) as int;
    let out = sorted_remove(rs, k);
    if p < rs.len() && rs[p].0 == k {
        assert forall|i: int, j: int| 0 <= i < j < out.len() implies key_lt(
            #[trigger] out[i].0,
            #[trigger] out[j].0,
        ) by {
            if j < p {
                assert(out[i] == rs[i] && out[j] == rs[j]);
            } else if i < p {
                assert(out[i] == rs[i] && out[j] == rs[j + 1]);
            } else {
                assert(out[i] == rs[i + 1] && out[j] == rs[j + 1]);
            }
        }
        assert forall|q: Seq<char>| #[trigger] map_of(out).contains_key(q) <==> map_of(rs).remove(k).contains_key(q) by {
            lemma_map_of_domain(out, q);
            lemma_map_of_domain(rs, q);
            if q != k && map_of(rs).contains_key(q) {
                let i = choose|i: int| 0 <= i < rs.len() && rs[i].0 == q;
                if i < p {
                    assert(out[i] == rs[i]);
                } else {
                    assert(out[i - 1] == rs[i]);
                }
            }
            if map_of(out).contains_key(q) {
                let i = choose|i: int| 0 <= i < out.len() && out[i].0 == q;
                if i < p {
                    assert(rs[i] == out[i]);
                    lemma_sorted_distinct(rs, i, p);
                } else {
                    assert(rs[i + 1] == out[i]);
                    lemma_sorted_distinct(rs, i + 1, p);
                }
            }
        }
        assert forall|q: Seq<char>| #[trigger] map_of(out).contains_key(q) implies map_of(out)[q] == map_of(rs).remove(k)[q] by {
            lemma_map_of_domain(out, q);
            let i = choose|i: int| 0 <= i < out.len() && out[i].0 == q;
            lemma_sorted_map(out, i);
            if i < p {
                assert(rs[i] == out[i]);
                lemma_sorted_map(rs, i);
            } else {
                assert(rs[i + 1] == out[i]);
                lemma_sorted_map(rs, i + 1);
            }
        }
        assert(map_of(out) =~= map_of(rs).remove(k));
    } else {
        assert forall|i: int| 0 <= i < rs.len() implies rs[i].0 != k by {
            lemma_key_lt_irreflexive(k);
            if i > p {
                lemma_key_lt_total(rs[p].0, k);
                lemma_key_lt_transitive(k, rs[p].0, rs[i].0);
            }
        }
        lemma_map_of_domain(rs, k);
        assert(map_of(out) =~= map_of(rs).remove(k));
    }
}

/// Setting each record in turn gives a sorted sequence that describes the
/// same phone book.
pub proof fn lemma_sorted_of(rs: Seq<RecordModel>)
    ensures
        is_sorted(sorted_of(rs)),
        map_of(sorted_of(rs)) == map_of(rs),
    decreases rs.len(),
{
    if rs.len() > 0 {
        lemma_sorted_of(rs.drop_last());
        lemma_sorted_insert(sorted_of(rs.drop_last()), rs.last().0, rs.last().1);
    }
}

/// A sequence that is sorted already is its own sorted form.
pub proof fn lemma_sorted_of_sorted(rs: Seq<RecordModel>)
    requires
        is_sorted(rs),
    ensures
        sorted_of(rs) == rs,
    decreases rs.len(),
{
    if rs.len() > 0 {
        let t = rs.drop_last();
        assert(is_sorted(t)) by {
            assert forall|i: int, j: int| 0 <= i < j < t.len() implies key_lt(
                #[trigger] t[i].0,
                #[trigger] t[j].0,
            ) by {
                assert(t[i] == rs[i] && t[j] == rs[j]);
            }
        }
        lemma_sorted_of_sorted(t);
        let k = rs.last().0;
        assert forall|j: int| 0 <= j < t.len() implies key_lt(#[trigger] t[j].0, k) by {
            assert(t[j] == rs[j]);
        }
        lemma_lower_bound_at(t, k, t.len() as int);
        assert(t.insert(t.len() as int, rs.last()) =~= rs);
    }
}

/// Setting a name to the value it already has changes nothing.
pub proof fn lemma_sorted_insert_same(rs: Seq<RecordModel>, k: Seq<char>, v: EntryModel)
    requires
        is_sorted(rs),
        map_of(rs).contains_key(k),
        map_of(rs)[k] == v,
    ensures
        sorted_insert(rs, k, v) == rs,
{
    lemma_lower_bound(rs, k);
    lemma_map_of_domain(rs, k);
    let i = choose|i: int| 0 <= i < rs.len() && rs[i].0 == k;
    lemma_sorted_map(rs, i);
    let p = lower_bound(rs, k) as int;
    lemma_key_lt_irreflexive(k);
    if p < i {
        lemma_key_lt_total(rs[p].0, k);
    }
    assert(p == i);
    assert(rs.update(p, (k, v)) =~= rs);
}

/// A sorted sequence holds one record per name of its map.
pub proof fn lemma_sorted_len(rs: Seq<RecordModel>)
    requires
        is_sorted(rs),
    ensures
        map_of(rs).dom().finite(),
        map_of(rs).dom().len() == rs.len(),
    decreases rs.len(),
{
    if rs.len() > 0 {
        let t = rs.drop_last();
        assert(is_sorted(t)) by {
            assert forall|i: int, j: int| 0 <= i < j < t.len() implies key_lt(
                #[trigger] t[i].0,
                #[trigger] t[j].0,
            ) by {
                assert(t[i] == rs[i] && t[j] == rs[j]);
            }
        }
        lemma_sorted_len(t);
        lemma_map_of_domain(t, rs.last().0);
        if map_of(t).contains_key(rs.last().0) {
            let i = choose|i: int| 0 <= i < t.len() && t[i].0 == rs.last().0;
            lemma_sorted_distinct(rs, i, rs.len() - 1);
        }
    }
}

/// Where the lower bound does not hold `k`, no record does.
pub proof fn lemma_absent_at_lower_bound(rs: Seq<RecordModel>, k: Seq<char>)
    requires
        is_sorted(rs),
        !(lower_bound(rs, k) < rs.len() && rs[lower_bound(rs, k) as int].0 == k),
    ensures
        !map_of(rs).contains_key(k),
{
    lemma_lower_bound(rs, k);
    lemma_map_of_domain(rs, k);
    lemma_key_lt_irreflexive(k);
    let p = lower_bound(rs, k) as int;
    if map_of(rs).contains_key(k) {
        let i = choose|i: int| 0 <= i < rs.len() && rs[i].0 == k;
        if i > p {
            lemma_key_lt_total(rs[p].0, k);
            lemma_key_lt_transitive(k, rs[p].0, rs[i].0);
        }
    }
}

/// A phone book: names, each with one entry, kept in ascending order of name.
#[derive(Debug)]
pub struct PhoneBook {
    records: Vec<(String, PhoneEntry)>,
}

impl View for PhoneBook {
    type V = Map<Seq<char>, EntryModel>;

    open spec fn view(&self) -> Map<Seq<char>, EntryModel> {
        map_of(self.records_view())
    }
}

impl PhoneBook {
    /// The records in ascending order of name.
    pub closed spec fn records_view(&self) -> Seq<RecordModel> {
        records_model(self.records@)
    }

    pub open spec fn wf(&self) -> bool {
        is_sorted(self.records_view())
    }

    pub fn new() -> (r: PhoneBook)
        ensures
            r.wf(),
            r.records_view() == Seq::<RecordModel>::empty(),
            r@ == Map::<Seq<char>, EntryModel>::empty(),
    {
        let r = PhoneBook { records: Vec::new() };
        assert(r.records_view() =~= Seq::<RecordModel>::empty());
        r
    }

    /// The number of names.
    pub fn len(&self) -> (r: usize)
        requires
            self.wf(),
        ensures
            r == self@.dom().len(),
            r == self.records_view().len(),
    {
        proof {
            lemma_sorted_len(self.records_view());
        }
        self.records.len()
    }

    pub fn is_empty(&self) -> (r: bool)
        requires
            self.wf(),
        ensures
            r <==> self@ == Map::<Seq<char>, EntryModel>::empty(),
    {
        proof {
            lemma_sorted_len(self.records_view());
            if self.records.len() == 0 {
                assert(self@ =~= Map::<Seq<char>, EntryModel>::empty());
            }
        }
        self.records.len() == 0
    }

    /// Where `key` stands or would stand, and whether a record has that name.
    fn position(&self, key: &Vec<char>) -> (r: (usize, bool))
        requires
            self.wf(),
        ensures
            r.0 == lower_bound(self.records_view(), key@),
            r.1 == (r.0 < self.records_view().len() && self.records_view()[r.0 as int].0 == key@),
    {
        let ghost rv = self.records_view();
        let mut i: usize = 0;
        while i < self.records.len()
            invariant
                i <= self.records.len(),
                rv == self.records_view(),
                rv.len() == self.records.len(),
                forall|j: int| 0 <= j < i ==> key_lt(#[trigger] rv[j].0, key@),
            decreases self.records.len() - i,
        {
            let k = chars_of(self.records[i].0.as_str());
            assert(k@ == rv[i as int].0);
            if key_less(&k, key) {
                i = i + 1;
            } else {
                let found = !key_less(key, &k);
                proof {
                    lemma_lower_bound_at(rv, key@, i as int);
                    if k@ != key@ {
                        lemma_key_lt_total(k@, key@);
                    } else {
                        lemma_key_lt_irreflexive(k@);
                    }
                }
                return (i, found);
            }
        }
        proof {
            lemma_lower_bound_at(rv, key@, i as int);
        }
        (i, false)
    }

    /// Whether `name` has an entry.
    pub fn contains_key(&self, name: &str) -> (r: bool)
        requires
            self.wf(),
        ensures
            r == self@.contains_key(name@),
    {
        let key = chars_of(name);
        let (p, found) = self.position(&key);
        proof {
            if found {
                lemma_sorted_map(self.records_view(), p as int);
            } else {
                lemma_absent_at_lower_bound(self.records_view(), name@);
            }
        }
        found
    }

    /// A copy of the entry of `name`, if it has one.
    pub fn get(&self, name: &str) -> (r: Option<PhoneEntry>)
        requires
            self.wf(),
        ensures
            entry_opt(r) == lookup(self@, name@),
    {
        let key = chars_of(name);
        let (p, found) = self.position(&key);
        if found {
            proof {
                lemma_sorted_map(self.records_view(), p as int);
                assert(self.records_view()[p as int] == self.records@[p as int]@);
            }
            Some(self.records[p].1.duplicate())
        } else {
            proof {
                lemma_absent_at_lower_bound(self.records_view(), name@);
            }
            None
        }
    }

    /// Sets the entry of `name`, replacing the whole of any earlier one.
    pub fn insert(&mut self, name: String, entry: PhoneEntry)
        requires
            old(self).wf(),
        ensures
            final(self).wf(),
            final(self).records_view() == sorted_insert(old(self).records_view(), name@, entry@),
            final(self)@ == old(self)@.insert(name@, entry@),
    {
        let key = chars_of(name.as_str());
        let (p, found) = self.position(&key);
        let ghost rv = self.records_view();
        let ghost item = (name, entry);
        proof {
            lemma_lower_bound(rv, name@);
        }
        if found {
            self.records.set(p, (name, entry));
            assert(self.records_view() =~= rv.update(p as int, item@));
        } else {
            self.records.insert(p, (name, entry));
            assert(self.records_view() =~= rv.insert(p as int, item@));
        }
        proof {
            lemma_sorted_insert(rv, item@.0, item@.1);
        }
    }

    /// Takes the entry of `name` out, handing it back if there was one.
    pub fn remove(&mut self, name: &str) -> (r: Option<PhoneEntry>)
        requires
            old(self).wf(),
        ensures
            final(self).wf(),
            final(self).records_view() == sorted_remove(old(self).records_view(), name@),
            final(self)@ == old(self)@.remove(name@),
            entry_opt(r) == lookup(old(self)@, name@),
    {
        let key = chars_of(name);
        let (p, found) = self.position(&key);
        let ghost rv = self.records_view();
        proof {
            lemma_sorted_remove(rv, name@);
            lemma_lower_bound(rv, name@);
        }
        if found {
            proof {
                lemma_sorted_map(rv, p as int);
            }
            let (_, e) = self.records.remove(p);
            assert(self.records_view() =~= rv.remove(p as int));
            Some(e)
        } else {
            proof {
                lemma_absent_at_lower_bound(rv, name@);
            }
            None
        }
    }

    /// The phone book that `records` describes, a later record of a name
    /// replacing an earlier one.
    pub fn from_records(records: Vec<(String, PhoneEntry)>) -> (r: PhoneBook)
        ensures
            r.wf(),
            r.records_view() == sorted_of(records_model(records@)),
            r@ == map_of(records_model(records@)),
    {
        let ghost all = records_model(records@);
        let mut book = PhoneBook::new();
        let mut i: usize = 0;
        while i < records.len()
            invariant
                book.wf(),
                i <= records.len(),
                all == records_model(records@),
                book.records_view() == sorted_of(all.take(i as int)),
            decreases records.len() - i,
        {
            let name = records[i].0.clone();
            let entry = records[i].1.duplicate();
            assert(all.take(i + 1).drop_last() =~= all.take(i as int));
            assert((name, entry)@ == all[i as int]);
            book.insert(name, entry);
            i = i + 1;
        }
        assert(all.take(i as int) =~= all);
        proof {
            lemma_sorted_of(all);
        }
        book
    }

    /// The records, a copy of each, in ascending order of name.
    pub fn entries(&self) -> (r: Vec<(String, PhoneEntry)>)
        ensures
            records_model(r@) == self.records_view(),
    {
        let mut r: Vec<(String, PhoneEntry)> = Vec::new();
        let mut i: usize = 0;
        while i < self.records.len()
            invariant
                i <= self.records.len(),
                records_model(r@) == records_model(self.records@).take(i as int),
            decreases self.records.len() - i,
        {
            let item = (self.records[i].0.clone(), self.records[i].1.duplicate());
            assert(item@ == self.records@[i as int]@);
            let ghost prev = r@;
            r.push(item);
            assert(records_model(r@) =~= records_model(prev).push(item@));
            assert(records_model(r@) =~= records_model(self.records@).take(i + 1));
            i = i + 1;
        }
        assert(records_model(self.records@).take(i as int) =~= records_model(self.records@));
        r
    }
}

} // verus!
