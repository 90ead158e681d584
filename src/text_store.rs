use vstd::prelude::*;

use crate::book::{
    distinct_names, is_sorted, lemma_lower_bound, lemma_sorted_insert, lemma_sorted_insert_same, lemma_sorted_of,
    lemma_sorted_of_sorted, lemma_sorted_remove, lemma_sorted_distinct, lookup, map_of,
    lower_bound, sorted_insert, sorted_of, sorted_remove, PhoneBook,
};
use crate::entry::{entry_opt, EntryModel, PhoneEntry, RecordModel, StoreError};
use crate::text_format::{
    book_of_text, clean_field, clean_records, lemma_text_clean, lemma_text_round_trip, parse_book,
    records_of_text, render_book, text_of,
};

verus! {

/// The text that a successful `write_one` leaves: the stored book with `name`
/// set to `entry`, written out in ascending order of name.
pub open spec fn after_write_one(t: Seq<char>, name: Seq<char>, entry: EntryModel) -> Option<
    Seq<char>,
> {
    match records_of_text(t) {
        Some(rs) => Some(text_of(sorted_insert(sorted_of(rs), name, entry))),
        None => None,
    }
}

/// The text that a successful `remove_one` leaves: untouched when `name` is
/// absent, else the stored book without it, written out in ascending order.
pub open spec fn after_remove_one(t: Seq<char>, name: Seq<char>) -> Option<Seq<char>> {
    match records_of_text(t) {
        Some(rs) => if map_of(rs).contains_key(name) {
            Some(text_of(sorted_remove(sorted_of(rs), name)))
        } else {
            Some(t)
        },
        None => None,
    }
}

/// The phone book kept as a text file of `name: mobile: work` lines. The store
/// holds the file's text: the caller reads the file into it (an empty text
/// where there is no file yet) and writes `text()` back after a change.
pub struct TextStore {
    text: String,
}

impl View for TextStore {
    type V = Seq<char>;

    closed spec fn view(&self) -> Seq<char> {
        self.text@
    }
}

impl TextStore {
    /// A store over the given file text.
    pub fn from_text(text: String) -> (r: TextStore)
        ensures
            r@ == text@,
    {
        TextStore { text }
    }

    /// A store whose file does not exist yet.
    pub fn empty() -> (r: TextStore)
        ensures
            r@ == Seq::<char>::empty(),
    {
        TextStore { text: String::new() }
    }

    /// The text to write to the file.
    pub fn text(&self) -> (r: &str)
        ensures
            r@ == self@,
    {
        self.text.as_str()
    }

    /// Every entry of the store.
    pub fn read_all(&self) -> (r: Result<PhoneBook, StoreError>)
        ensures
            match book_of_text(self@) {
                Some(m) => r matches Ok(b) && b.wf() && b@ == m,
                None => r is Err && r->Err_0 == StoreError::MalformedRecord,
            },
    {
        parse_book(self.text.as_str())
    }

    /// The entry of `name`, if the store has one.
    pub fn read_one(&self, name: &str) -> (r: Result<Option<PhoneEntry>, StoreError>)
        ensures
            match book_of_text(self@) {
                Some(m) => r matches Ok(o) && entry_opt(o) == lookup(m, name@),
                None => r is Err && r->Err_0 == StoreError::MalformedRecord,
            },
    {
        let book = parse_book(self.text.as_str())?;
        Ok(book.get(name))
    }

    /// Sets the entry of `name`, replacing the whole of any earlier one.
    pub fn write_one(&mut self, name: String, entry: PhoneEntry) -> (r: Result<(), StoreError>)
        ensures
            match after_write_one(old(self)@, name@, entry@) {
                Some(t) => r is Ok && final(self)@ == t,
                None => r is Err && r->Err_0 == StoreError::MalformedRecord && final(self)@ == old(
                    self,
                )@,
            },
    {
        let mut book = parse_book(self.text.as_str())?;
        book.insert(name, entry);
        self.text = render_book(&book);
        Ok(())
    }

    /// Deletes the entry of `name`; deleting an absent name changes nothing.
    pub fn remove_one(&mut self, name: &str) -> (r: Result<(), StoreError>)
        ensures
            match after_remove_one(old(self)@, name@) {
                Some(t) => r is Ok && final(self)@ == t,
                None => r is Err && r->Err_0 == StoreError::MalformedRecord && final(self)@ == old(
                    self,
                )@,
            },
    {
        let mut book = parse_book(self.text.as_str())?;
        if !book.contains_key(name) {
            return Ok(());
        }
        book.remove(name);
        self.text = render_book(&book);
        Ok(())
    }

    /// Replaces the whole store by `book`.
    pub fn write_all(&mut self, book: &PhoneBook)
        requires
            book.wf(),
        ensures
            final(self)@ == text_of(book.records_view()),
    {
        self.text = render_book(book);
    }
}

pub proof fn lemma_insert_clean(rs: Seq<RecordModel>, k: Seq<char>, v: EntryModel)
    requires
        is_sorted(rs),
        clean_records(rs),
        clean_field(k),
        clean_field(v.0),
        clean_field(v.1),
    ensures
        clean_records(sorted_insert(rs, k, v)),
{
    let out = sorted_insert(rs, k, v);
    lemma_lower_bound(rs, k);
    let p = lower_bound(rs, k) as int;
    assert forall|i: int| 0 <= i < out.len() implies {
        &&& clean_field(#[trigger] out[i].0)
        &&& clean_field(out[i].1.0)
        &&& clean_field(out[i].1.1)
    } by {
        if p < rs.len() && rs[p].0 == k {
            if i != p {
                assert(out[i] == rs[i]);
                assert(clean_field(rs[i].0));
            } else {
                assert(out[i] == (k, v));
            }
        } else if i < p {
            assert(out[i] == rs[i]);
            assert(clean_field(rs[i].0));
        } else if i > p {
            assert(out[i] == rs[i - 1]);
            assert(clean_field(rs[i - 1].0));
        } else {
            assert(out[i] == (k, v));
        }
    }
}

pub proof fn lemma_remove_clean(rs: Seq<RecordModel>, k: Seq<char>)
    requires
        is_sorted(rs),
        clean_records(rs),
    ensures
        clean_records(sorted_remove(rs, k)),
{
    let out = sorted_remove(rs, k);
    lemma_lower_bound(rs, k);
    let p = lower_bound(rs, k) as int;
    assert forall|i: int| 0 <= i < out.len() implies {
        &&& clean_field(#[trigger] out[i].0)
        &&& clean_field(out[i].1.0)
        &&& clean_field(out[i].1.1)
    } by {
        if p < rs.len() && rs[p].0 == k {
            if i < p {
                assert(out[i] == rs[i]);
            } else {
                assert(out[i] == rs[i + 1]);
            }
        }
    }
}

pub proof fn lemma_sorted_of_clean(rs: Seq<RecordModel>)
    requires
        clean_records(rs),
    ensures
        clean_records(sorted_of(rs)),
    decreases rs.len(),
{
    if rs.len() > 0 {
        let t = rs.drop_last();
        assert(clean_records(t)) by {
            assert forall|i: int| 0 <= i < t.len() implies {
                &&& clean_field(#[trigger] t[i].0)
                &&& clean_field(t[i].1.0)
                &&& clean_field(t[i].1.1)
            } by {
                assert(t[i] == rs[i]);
            }
        }
        lemma_sorted_of_clean(t);
        lemma_sorted_of(t);
        assert(clean_field(rs[rs.len() - 1].0));
        lemma_insert_clean(sorted_of(t), rs.last().0, rs.last().1);
    }
}

/// What a stored text reads back as once it has been written out sorted: the
/// records of a successful write are the sorted records that were written.
proof fn lemma_written_reads_back(rs: Seq<RecordModel>)
    requires
        is_sorted(rs),
        clean_records(rs),
    ensures
        records_of_text(text_of(rs)) == Some(rs),
        sorted_of(rs) == rs,
        book_of_text(text_of(rs)) == Some(map_of(rs)),
{
    lemma_text_round_trip(rs);
    lemma_sorted_of_sorted(rs);
}

/// Writing a whole phone book and reading it back gives the same phone book,
/// provided no name or number holds a newline or `": "`.
pub proof fn lemma_write_all_read_all(book: PhoneBook)
    requires
        book.wf(),
        clean_records(book.records_view()),
    ensures
        book_of_text(text_of(book.records_view())) == Some(book@),
{
    lemma_written_reads_back(book.records_view());
}

/// After a successful `write_one(name, entry)`, `read_one(name)` gives
/// `entry`, provided neither holds a newline or `": "`.
pub proof fn lemma_write_one_read_one(t: Seq<char>, name: Seq<char>, entry: EntryModel)
    requires
        clean_field(name),
        clean_field(entry.0),
        clean_field(entry.1),
    ensures
        after_write_one(t, name, entry) matches Some(t2) ==> (book_of_text(t2) matches Some(m)
            && lookup(m, name) == Some(entry)),
{
    if let Some(rs) = records_of_text(t) {
        let w = sorted_insert(sorted_of(rs), name, entry);
        lemma_text_clean(t);
        lemma_sorted_of(rs);
        lemma_sorted_of_clean(rs);
        lemma_sorted_insert(sorted_of(rs), name, entry);
        lemma_insert_clean(sorted_of(rs), name, entry);
        lemma_written_reads_back(w);
    }
}

/// Writing the same entry twice leaves the same text as writing it once,
/// provided neither name nor entry holds a newline or `": "`.
pub proof fn lemma_write_one_idempotent(t: Seq<char>, name: Seq<char>, entry: EntryModel)
    requires
        clean_field(name),
        clean_field(entry.0),
        clean_field(entry.1),
    ensures
        after_write_one(t, name, entry) matches Some(t1) ==> after_write_one(t1, name, entry)
            == Some(t1),
{
    if let Some(rs) = records_of_text(t) {
        let w = sorted_insert(sorted_of(rs), name, entry);
        lemma_text_clean(t);
        lemma_sorted_of(rs);
        lemma_sorted_of_clean(rs);
        lemma_sorted_insert(sorted_of(rs), name, entry);
        lemma_insert_clean(sorted_of(rs), name, entry);
        lemma_written_reads_back(w);
        lemma_sorted_insert_same(w, name, entry);
    }
}

/// Of two writes of one name, the later entry is the one read back, and the
/// stored text holds that name once.
pub proof fn lemma_write_one_last_wins(
    t: Seq<char>,
    name: Seq<char>,
    first: EntryModel,
    second: EntryModel,
)
    requires
        clean_field(name),
        clean_field(first.0),
        clean_field(first.1),
        clean_field(second.0),
        clean_field(second.1),
    ensures
        after_write_one(t, name, first) matches Some(t1) ==> {
            &&& after_write_one(t1, name, second) matches Some(t2)
            &&& book_of_text(t2) matches Some(m)
            &&& lookup(m, name) == Some(second)
            &&& records_of_text(t2) matches Some(rs2)
            &&& distinct_names(rs2)
        },
{
    if let Some(rs) = records_of_text(t) {
        let w = sorted_insert(sorted_of(rs), name, first);
        lemma_text_clean(t);
        lemma_sorted_of(rs);
        lemma_sorted_of_clean(rs);
        lemma_sorted_insert(sorted_of(rs), name, first);
        lemma_insert_clean(sorted_of(rs), name, first);
        lemma_written_reads_back(w);
        let w2 = sorted_insert(w, name, second);
        lemma_sorted_insert(w, name, second);
        lemma_insert_clean(w, name, second);
        lemma_written_reads_back(w2);
        assert forall|i: int, j: int| 0 <= i < j < w2.len() implies w2[i].0 != w2[j].0 by {
            lemma_sorted_distinct(w2, i, j);
        }
    }
}

/// Removing an absent name succeeds and leaves the stored text as it was.
pub proof fn lemma_remove_absent(t: Seq<char>, name: Seq<char>)
    requires
        book_of_text(t) matches Some(m) && !m.contains_key(name),
    ensures
        after_remove_one(t, name) == Some(t),
{
}

/// After a successful `remove_one(name)`, `read_one(name)` gives nothing and
/// the name is not in `read_all()`.
pub proof fn lemma_remove_one_read_one(t: Seq<char>, name: Seq<char>)
    ensures
        after_remove_one(t, name) matches Some(t2) ==> (book_of_text(t2) matches Some(m)
            && lookup(m, name) == None::<EntryModel> && !m.contains_key(name)),
{
    if let Some(rs) = records_of_text(t) {
        if map_of(rs).contains_key(name) {
            let w = sorted_remove(sorted_of(rs), name);
            lemma_text_clean(t);
            lemma_sorted_of(rs);
            lemma_sorted_of_clean(rs);
            lemma_sorted_remove(sorted_of(rs), name);
            lemma_remove_clean(sorted_of(rs), name);
            lemma_written_reads_back(w);
        }
    }
}

/// A store whose file does not exist yet reads as an empty phone book.
pub proof fn lemma_fresh_store_empty()
    ensures
        book_of_text(Seq::<char>::empty()) == Some(Map::<Seq<char>, EntryModel>::empty()),
{
    lemma_text_round_trip(Seq::<RecordModel>::empty());
    assert(text_of(Seq::<RecordModel>::empty()) == Seq::<char>::empty());
}

} // verus!
