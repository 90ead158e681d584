use vstd::prelude::*;

use crate::book::{map_of, sorted_of, PhoneBook};
use crate::entry::{records_model, EntryModel, PhoneEntry, RecordModel, StoreError};
use crate::order::chars_of;

verus! {

/// What separates two records.
pub open spec fn line_sep() -> Seq<char> {
    seq!['\n']
}

/// What separates the fields of a record.
pub open spec fn field_sep() -> Seq<char> {
    seq![':', ' ']
}

/// `sep` occurs in `s` at position `i`.
pub open spec fn match_at(s: Seq<char>, sep: Seq<char>, i: int) -> bool {
    &&& 0 < sep.len()
    &&& 0 <= i
    &&& i + sep.len() <= s.len()
    &&& s.subrange(i, i + sep.len()) == sep
}

/// `s` cut at each occurrence of `sep`, scanning from the front: the pieces
/// between occurrences, the first and last included even when empty.
pub open spec fn split_on(s: Seq<char>, sep: Seq<char>) -> Seq<Seq<char>>
    decreases s.len(),
{
    if s.len() == 0 {
        seq![Seq::empty()]
    } else if match_at(s, sep, 0) {
        seq![Seq::empty()] + split_on(s.subrange(sep.len() as int, s.len() as int), sep)
    } else {
        let r = split_on(s.drop_first(), sep);
        r.update(0, seq![s[0]] + r[0])
    }
}

/// The record that a non-empty line holds: exactly three fields.
pub open spec fn record_of_line(line: Seq<char>) -> Option<RecordModel> {
    let f = split_on(line, field_sep());
    if f.len() == 3 {
        Some((f[0], (f[1], f[2])))
    } else {
        None
    }
}

/// The records that lines hold, in order, skipping empty lines; none at all
/// if a line is malformed.
pub open spec fn records_of_lines(lines: Seq<Seq<char>>) -> Option<Seq<RecordModel>>
    decreases lines.len(),
{
    if lines.len() == 0 {
        Some(Seq::empty())
    } else {
        match records_of_lines(lines.drop_first()) {
            None => None,
            Some(rest) => if lines[0].len() == 0 {
                Some(rest)
            } else {
                match record_of_line(lines[0]) {
                    None => None,
                    Some(r) => Some(seq![r] + rest),
                }
            },
        }
    }
}

/// The records that a stored text holds, in the order of its lines.
pub open spec fn records_of_text(t: Seq<char>) -> Option<Seq<RecordModel>> {
    records_of_lines(split_on(t, line_sep()))
}

/// The phone book that a stored text holds.
pub open spec fn book_of_text(t: Seq<char>) -> Option<Map<Seq<char>, EntryModel>> {
    match records_of_text(t) {
        Some(rs) => Some(map_of(rs)),
        None => None,
    }
}

/// One record as a line: `name: mobile: work`.
pub open spec fn line_of(r: RecordModel) -> Seq<char> {
    r.0 + field_sep() + r.1.0 + field_sep() + r.1.1
}

/// Records as text, each line ended by a newline.
pub open spec fn text_of(rs: Seq<RecordModel>) -> Seq<char>
    decreases rs.len(),
{
    if rs.len() == 0 {
        Seq::empty()
    } else {
        line_of(rs[0]) + line_sep() + text_of(rs.drop_first())
    }
}

/// A field that reads back as written: no newline and no `": "` in it.
pub open spec fn clean_field(f: Seq<char>) -> bool {
    &&& !f.contains('\n')
    &&& forall|i: int| !match_at(f, field_sep(), i)
}

/// Every name and number of the records reads back as written.
pub open spec fn clean_records(rs: Seq<RecordModel>) -> bool {
    forall|i: int|
        0 <= i < rs.len() ==> {
            &&& clean_field(#[trigger] rs[i].0)
            &&& clean_field(rs[i].1.0)
            &&& clean_field(rs[i].1.1)
        }
}

pub proof fn lemma_split_nonempty(s: Seq<char>, sep: Seq<char>)
    ensures
        split_on(s, sep).len() >= 1,
    decreases s.len(),
{
    if s.len() > 0 {
        if match_at(s, sep, 0) {
            lemma_split_nonempty(s.subrange(sep.len() as int, s.len() as int), sep);
        } else {
            lemma_split_nonempty(s.drop_first(), sep);
        }
    }
}

/// The pieces of `split_on` once the first has `p` put in front of it.
pub open spec fn prepend(p: Seq<char>, r: Seq<Seq<char>>) -> Seq<Seq<char>> {
    r.update(0, p + r[0])
}

/// The text that each range of `chars` covers.
pub open spec fn ranges_text(chars: Seq<char>, rs: Seq<(usize, usize)>) -> Seq<Seq<char>> {
    rs.map_values(|p: (usize, usize)| chars.subrange(p.0 as int, p.1 as int))
}

/// Whether `sep` occurs in `chars` at `i`, within the first `hi` characters.
fn matches_at(chars: &Vec<char>, i: usize, hi: usize, sep: &Vec<char>) -> (r: bool)
    requires
        i <= hi <= chars.len(),
        sep.len() > 0,
    ensures
        r == match_at(chars@.subrange(i as int, hi as int), sep@, 0),
{
    if sep.len() > hi - i {
        return false;
    }
    let mut j: usize = 0;
    while j < sep.len()
        invariant
            j <= sep.len(),
            i + sep.len() <= hi <= chars.len(),
            forall|q: int| 0 <= q < j ==> chars@[i + q] == sep@[q],
        decreases sep.len() - j,
    {
        if chars[i + j] != sep[j] {
            assert(chars@.subrange(i as int, hi as int).subrange(0, sep.len() as int)[j as int]
                != sep@[j as int]);
            return false;
        }
        j = j + 1;
    }
    assert(chars@.subrange(i as int, hi as int).subrange(0, sep.len() as int) =~= sep@);
    true
}

/// The ranges of the pieces of `chars[lo..hi]` cut at each `sep`.
fn split_ranges(chars: &Vec<char>, lo: usize, hi: usize, sep: &Vec<char>) -> (r: Vec<
    (usize, usize),
>)
    requires
        lo <= hi <= chars.len(),
        sep.len() > 0,
    ensures
        ranges_text(chars@, r@) == split_on(chars@.subrange(lo as int, hi as int), sep@),
        forall|j: int| 0 <= j < r.len() ==> lo <= (#[trigger] r@[j]).0 <= r@[j].1 <= hi,
{
    let ghost whole = chars@.subrange(lo as int, hi as int);
    let mut out: Vec<(usize, usize)> = Vec::new();
    let mut start: usize = lo;
    let mut i: usize = lo;
    assert(ranges_text(chars@, out@) + prepend(
        chars@.subrange(lo as int, lo as int),
        split_on(whole, sep@),
    ) =~= split_on(whole, sep@)) by {
        lemma_split_nonempty(whole, sep@);
        assert(chars@.subrange(lo as int, lo as int) + split_on(whole, sep@)[0] =~= split_on(
            whole,
            sep@,
        )[0]);
    }
    while i < hi
        invariant
            lo <= start <= i <= hi <= chars.len(),
            sep.len() > 0,
            whole == chars@.subrange(lo as int, hi as int),
            forall|j: int| 0 <= j < out.len() ==> lo <= (#[trigger] out@[j]).0 <= out@[j].1 <= hi,
            ranges_text(chars@, out@) + prepend(
                chars@.subrange(start as int, i as int),
                split_on(chars@.subrange(i as int, hi as int), sep@),
            ) == split_on(whole, sep@),
        decreases hi - i,
    {
        let ghost u = chars@.subrange(i as int, hi as int);
        let ghost before = out@;
        let ghost pre = chars@.subrange(start as int, i as int);
        if matches_at(chars, i, hi, sep) {
            let ghost y = split_on(u.subrange(sep.len() as int, u.len() as int), sep@);
            proof {
                lemma_split_nonempty(u.subrange(sep.len() as int, u.len() as int), sep@);
                assert(u.subrange(sep.len() as int, u.len() as int) =~= chars@.subrange(
                    i + sep.len(),
                    hi as int,
                ));
            }
            out.push((start, i));
            i = i + sep.len();
            start = i;
            proof {
                assert(ranges_text(chars@, out@) =~= ranges_text(chars@, before).push(pre));
                assert(chars@.subrange(start as int, start as int) + y[0] =~= y[0]);
                assert(prepend(chars@.subrange(start as int, i as int), y) =~= y);
                assert(prepend(pre, seq![Seq::<char>::empty()] + y) =~= seq![pre] + y);
                assert(ranges_text(chars@, before).push(pre) + y =~= ranges_text(chars@, before)
                    + (seq![pre] + y));
            }
        } else {
            let ghost z = split_on(u.drop_first(), sep@);
            proof {
                lemma_split_nonempty(u.drop_first(), sep@);
                assert(u.drop_first() =~= chars@.subrange(i + 1, hi as int));
                assert(pre + (seq![u[0]] + z[0]) =~= chars@.subrange(start as int, i + 1) + z[0]);
                assert(prepend(pre, z.update(0, seq![u[0]] + z[0])) =~= prepend(
                    chars@.subrange(start as int, i + 1),
                    z,
                ));
            }
            i = i + 1;
        }
    }
    let ghost before = out@;
    out.push((start, hi));
    proof {
        assert(chars@.subrange(hi as int, hi as int) =~= Seq::<char>::empty());
        assert(chars@.subrange(start as int, hi as int) + Seq::<char>::empty() =~= chars@.subrange(
            start as int,
            hi as int,
        ));
        assert(ranges_text(chars@, out@) =~= ranges_text(chars@, before).push(
            chars@.subrange(start as int, hi as int),
        ));
        assert(prepend(chars@.subrange(start as int, hi as int), seq![Seq::<char>::empty()])
            =~= seq![chars@.subrange(start as int, hi as int)]);
    }
    out
}

/// Records of two runs of lines, one after the other.
pub open spec fn join_records(a: Option<Seq<RecordModel>>, b: Option<Seq<RecordModel>>) -> Option<
    Seq<RecordModel>,
> {
    match (a, b) {
        (Some(x), Some(y)) => Some(x + y),
        _ => None,
    }
}

pub proof fn lemma_records_of_lines_concat(a: Seq<Seq<char>>, b: Seq<Seq<char>>)
    ensures
        records_of_lines(a + b) == join_records(records_of_lines(a), records_of_lines(b)),
    decreases a.len(),
{
    if a.len() == 0 {
        assert(a + b =~= b);
        if let Some(y) = records_of_lines(b) {
            assert(Seq::<RecordModel>::empty() + y =~= y);
        }
    } else {
        assert((a + b).drop_first() =~= a.drop_first() + b);
        lemma_records_of_lines_concat(a.drop_first(), b);
        if let (Some(x), Some(y)) = (records_of_lines(a.drop_first()), records_of_lines(b)) {
            if let Some(r) = record_of_line(a[0]) {
                assert(seq![r] + (x + y) =~= (seq![r] + x) + y);
            }
        }
    }
}

/// The records that `text` holds, in the order of its lines: the text is cut
/// into lines at each newline, empty lines are skipped, and each other line
/// must be three fields separated by `": "`.
pub fn parse_records(text: &str) -> (r: Result<Vec<(String, PhoneEntry)>, StoreError>)
    ensures
        match records_of_text(text@) {
            Some(rs) => r is Ok && records_model(r->Ok_0@) == rs,
            None => r == Err::<Vec<(String, PhoneEntry)>, StoreError>(StoreError::MalformedRecord),
        },
{
    let chars = chars_of(text);
    let nl: Vec<char> = vec!['\n'];
    let fs: Vec<char> = vec![':', ' '];
    assert(nl@ =~= line_sep());
    assert(fs@ =~= field_sep());
    let lines = split_ranges(&chars, 0, chars.len(), &nl);
    assert(chars@.subrange(0, chars.len() as int) =~= text@);
    let ghost ls = ranges_text(chars@, lines@);
    let mut out: Vec<(String, PhoneEntry)> = Vec::new();
    let mut i: usize = 0;
    assert(ls.take(0) =~= Seq::<Seq<char>>::empty());
    assert(records_model(out@) =~= Seq::<RecordModel>::empty());
    while i < lines.len()
        invariant
            i <= lines.len(),
            chars@ == text@,
            fs@ == field_sep(),
            ls == ranges_text(chars@, lines@),
            ls == split_on(text@, line_sep()),
            forall|j: int| 0 <= j < lines.len() ==> 0 <= (#[trigger] lines@[j]).0 <= lines@[j].1 <= chars.len(),
            records_of_lines(ls.take(i as int)) == Some(records_model(out@)),
        decreases lines.len() - i,
    {
        let lo = lines[i].0;
        let hi = lines[i].1;
        let ghost line = ls[i as int];
        assert(line == chars@.subrange(lo as int, hi as int));
        assert(ls.take(i + 1) =~= ls.take(i as int) + seq![line]);
        proof {
            lemma_records_of_lines_concat(ls.take(i as int), seq![line]);
            assert(seq![line].drop_first() =~= Seq::<Seq<char>>::empty());
            assert(records_of_lines(seq![line].drop_first()) == Some(Seq::<RecordModel>::empty()));
        }
        if lo < hi {
            let fields = split_ranges(&chars, lo, hi, &fs);
            if fields.len() != 3 {
                proof {
                    assert(ls =~= ls.take(i + 1) + ls.skip(i + 1));
                    lemma_records_of_lines_concat(ls.take(i + 1), ls.skip(i + 1));
                }
                return Err(StoreError::MalformedRecord);
            }
            let name = text.substring_char(fields[0].0, fields[0].1).to_owned();
            let mobile = text.substring_char(fields[1].0, fields[1].1).to_owned();
            let work = text.substring_char(fields[2].0, fields[2].1).to_owned();
            let ghost prev = out@;
            let item = (name, PhoneEntry::new(mobile, work));
            out.push(item);
            proof {
                let f = split_on(line, field_sep());
                assert(f[0] == ranges_text(chars@, fields@)[0]);
                assert(f[1] == ranges_text(chars@, fields@)[1]);
                assert(f[2] == ranges_text(chars@, fields@)[2]);
                assert(item@ == (f[0], (f[1], f[2])));
                assert(records_of_lines(seq![line]) == Some(seq![item@] + Seq::<RecordModel>::empty()));
                assert(records_model(out@) =~= records_model(prev).push(item@));
                assert(records_model(prev) + seq![item@] + Seq::<RecordModel>::empty()
                    =~= records_model(out@));
            }
        } else {
            assert(records_of_lines(seq![line]) == Some(Seq::<RecordModel>::empty()));
            assert(records_model(out@) + Seq::<RecordModel>::empty() =~= records_model(out@));
        }
        i = i + 1;
    }
    assert(ls.take(i as int) =~= ls);
    Ok(out)
}

pub proof fn lemma_text_of_push(rs: Seq<RecordModel>, r: RecordModel)
    ensures
        text_of(rs.push(r)) == text_of(rs) + line_of(r) + line_sep(),
    decreases rs.len(),
{
    if rs.len() == 0 {
        assert(rs.push(r).drop_first() =~= Seq::<RecordModel>::empty());
        assert(text_of(rs.push(r).drop_first()) == Seq::<char>::empty());
        assert(rs.push(r)[0] == r);
        assert(text_of(rs.push(r)) =~= text_of(rs) + line_of(r) + line_sep());
    } else {
        assert(rs.push(r).drop_first() =~= rs.drop_first().push(r));
        lemma_text_of_push(rs.drop_first(), r);
        assert(text_of(rs.push(r)) =~= text_of(rs) + line_of(r) + line_sep());
    }
}

/// `records` as text: one line `name: mobile: work` for each, in order, each
/// line ended by a newline.
pub fn render_records(records: &Vec<(String, PhoneEntry)>) -> (r: String)
    ensures
        r@ == text_of(records_model(records@)),
{
    let ghost all = records_model(records@);
    let mut out = String::new();
    let mut i: usize = 0;
    proof {
        reveal_strlit(": ");
        reveal_strlit("\n");
        assert(all.take(0) =~= Seq::<RecordModel>::empty());
    }
    assert(": "@ =~= field_sep());
    assert("\n"@ =~= line_sep());
    while i < records.len()
        invariant
            i <= records.len(),
            all == records_model(records@),
            ": "@ == field_sep(),
            "\n"@ == line_sep(),
            out@ == text_of(all.take(i as int)),
        decreases records.len() - i,
    {
        let ghost r = all[i as int];
        out.append(records[i].0.as_str());
        out.append(": ");
        out.append(records[i].1.mobile.as_str());
        out.append(": ");
        out.append(records[i].1.work.as_str());
        out.append("\n");
        proof {
            assert(all.take(i + 1) =~= all.take(i as int).push(r));
            lemma_text_of_push(all.take(i as int), r);
            assert(out@ =~= text_of(all.take(i as int)) + line_of(r) + line_sep());
        }
        i = i + 1;
    }
    assert(all.take(i as int) =~= all);
    out
}

/// The phone book that `text` holds, a later line of a name replacing an
/// earlier one.
pub fn parse_book(text: &str) -> (r: Result<PhoneBook, StoreError>)
    ensures
        match records_of_text(text@) {
            Some(rs) => r matches Ok(b) && b.wf() && b.records_view() == sorted_of(rs) && b@
                == map_of(rs),
            None => r is Err && r->Err_0 == StoreError::MalformedRecord,
        },
{
    match parse_records(text) {
        Ok(records) => Ok(PhoneBook::from_records(records)),
        Err(e) => Err(e),
    }
}

/// The text of a phone book, in ascending order of name.
pub fn render_book(book: &PhoneBook) -> (r: String)
    ensures
        r@ == text_of(book.records_view()),
{
    render_records(&book.entries())
}

pub proof fn lemma_split_no_match(s: Seq<char>, sep: Seq<char>)
    requires
        forall|i: int| !match_at(s, sep, i),
    ensures
        split_on(s, sep) == seq![s],
    decreases s.len(),
{
    if s.len() > 0 {
        let t = s.drop_first();
        assert forall|i: int| !match_at(t, sep, i) by {
            if match_at(t, sep, i) {
                assert(s.subrange(i + 1, i + 1 + sep.len()) =~= t.subrange(i, i + sep.len()));
                assert(match_at(s, sep, i + 1));
            }
        }
        lemma_split_no_match(t, sep);
        assert(seq![s[0]] + t =~= s);
        assert(split_on(s, sep) =~= seq![s]);
    } else {
        assert(s =~= Seq::<char>::empty());
    }
}

/// A piece with no occurrence of `sep` starting in it comes off the front.
pub proof fn lemma_split_prefix(a: Seq<char>, sep: Seq<char>, b: Seq<char>)
    requires
        sep.len() > 0,
        forall|i: int| 0 <= i < a.len() ==> !match_at(a + sep + b, sep, i),
    ensures
        split_on(a + sep + b, sep) == seq![a] + split_on(b, sep),
    decreases a.len(),
{
    let s = a + sep + b;
    if a.len() == 0 {
        assert(s.subrange(0, sep.len() as int) =~= sep);
        assert(s.subrange(sep.len() as int, s.len() as int) =~= b);
        assert(a =~= Seq::<char>::empty());
    } else {
        let a1 = a.drop_first();
        assert(s.drop_first() =~= a1 + sep + b);
        assert forall|i: int| 0 <= i < a1.len() implies !match_at(a1 + sep + b, sep, i) by {
            if match_at(a1 + sep + b, sep, i) {
                assert(s.subrange(i + 1, i + 1 + sep.len()) =~= (a1 + sep + b).subrange(
                    i,
                    i + sep.len(),
                ));
                assert(match_at(s, sep, i + 1));
            }
        }
        lemma_split_prefix(a1, sep, b);
        assert(!match_at(s, sep, 0));
        assert(seq![a[0]] + a1 =~= a);
        assert(split_on(s, sep) =~= seq![a] + split_on(b, sep));
    }
}

/// The first piece is the front of the text.
pub proof fn lemma_split_first(s: Seq<char>, sep: Seq<char>)
    ensures
        split_on(s, sep).len() >= 1,
        split_on(s, sep)[0].len() <= s.len(),
        split_on(s, sep)[0] == s.subrange(0, split_on(s, sep)[0].len() as int),
    decreases s.len(),
{
    lemma_split_nonempty(s, sep);
    if s.len() > 0 {
        if match_at(s, sep, 0) {
            assert(split_on(s, sep)[0] =~= s.subrange(0, 0));
        } else {
            let t = s.drop_first();
            lemma_split_first(t, sep);
            let r0 = split_on(t, sep)[0];
            assert(seq![s[0]] + r0 =~= s.subrange(0, r0.len() as int + 1));
        }
    } else {
        assert(split_on(s, sep)[0] =~= s.subrange(0, 0));
    }
}

/// No piece holds an occurrence of `sep`.
pub proof fn lemma_split_pieces_no_match(s: Seq<char>, sep: Seq<char>)
    ensures
        forall|j: int, i: int|
            0 <= j < split_on(s, sep).len() ==> !#[trigger] match_at(split_on(s, sep)[j], sep, i),
    decreases s.len(),
{
    let pieces = split_on(s, sep);
    if s.len() == 0 {
    } else if match_at(s, sep, 0) {
        let rest = s.subrange(sep.len() as int, s.len() as int);
        lemma_split_pieces_no_match(rest, sep);
        assert forall|j: int, i: int| 0 <= j < pieces.len() implies !#[trigger] match_at(
            pieces[j],
            sep,
            i,
        ) by {
            if j > 0 {
                assert(pieces[j] == split_on(rest, sep)[j - 1]);
            }
        }
    } else {
        let t = s.drop_first();
        lemma_split_pieces_no_match(t, sep);
        lemma_split_first(t, sep);
        let r = split_on(t, sep);
        let head = seq![s[0]] + r[0];
        assert forall|j: int, i: int| 0 <= j < pieces.len() implies !#[trigger] match_at(
            pieces[j],
            sep,
            i,
        ) by {
            if j > 0 {
                assert(pieces[j] == r[j]);
            } else if match_at(head, sep, i) {
                assert(pieces[0] == head);
                if i > 0 {
                    assert(head.subrange(i, i + sep.len()) =~= r[0].subrange(i - 1, i - 1 + sep.len()));
                    assert(match_at(r[0], sep, i - 1));
                } else {
                    assert(head =~= s.subrange(0, r[0].len() as int + 1));
                    assert(s.subrange(0, sep.len() as int) =~= head.subrange(0, sep.len() as int));
                }
            }
        }
    }
}

/// A character that the text lacks, no piece holds.
pub proof fn lemma_split_pieces_lack(s: Seq<char>, sep: Seq<char>, c: char)
    requires
        !s.contains(c),
    ensures
        forall|j: int| 0 <= j < split_on(s, sep).len() ==> !(#[trigger] split_on(s, sep)[j]).contains(c),
    decreases s.len(),
{
    let pieces = split_on(s, sep);
    if s.len() == 0 {
    } else if match_at(s, sep, 0) {
        let rest = s.subrange(sep.len() as int, s.len() as int);
        assert(!rest.contains(c)) by {
            if rest.contains(c) {
                let k = choose|k: int| 0 <= k < rest.len() && rest[k] == c;
                assert(s[k + sep.len()] == c);
            }
        }
        lemma_split_pieces_lack(rest, sep, c);
        assert forall|j: int| 0 <= j < pieces.len() implies !(#[trigger] pieces[j]).contains(c) by {
            if j > 0 {
                assert(pieces[j] == split_on(rest, sep)[j - 1]);
            }
        }
    } else {
        let t = s.drop_first();
        assert(!t.contains(c)) by {
            if t.contains(c) {
                let k = choose|k: int| 0 <= k < t.len() && t[k] == c;
                assert(s[k + 1] == c);
            }
        }
        lemma_split_pieces_lack(t, sep, c);
        lemma_split_nonempty(t, sep);
        let r = split_on(t, sep);
        assert forall|j: int| 0 <= j < pieces.len() implies !(#[trigger] pieces[j]).contains(c) by {
            if j > 0 {
                assert(pieces[j] == r[j]);
            } else {
                assert(!r[0].contains(c));
                if pieces[0].contains(c) {
                    let k = choose|k: int| 0 <= k < pieces[0].len() && pieces[0][k] == c;
                    if k > 0 {
                        assert(r[0][k - 1] == c);
                    } else {
                        assert(s[0] == c);
                    }
                }
            }
        }
    }
}

pub proof fn lemma_clean_no_match(a: Seq<char>, rest: Seq<char>)
    requires
        clean_field(a),
    ensures
        forall|i: int| 0 <= i < a.len() ==> !match_at(a + field_sep() + rest, field_sep(), i),
{
    let s = a + field_sep() + rest;
    assert forall|i: int| 0 <= i < a.len() implies !match_at(s, field_sep(), i) by {
        if match_at(s, field_sep(), i) {
            if i + 1 < a.len() {
                assert(a.subrange(i, i + 2) =~= s.subrange(i, i + 2));
                assert(match_at(a, field_sep(), i));
            } else {
                assert(s[i + 1] == ':');
                assert(s.subrange(i, i + 2)[1] == ' ');
            }
        }
    }
}

pub proof fn lemma_no_newline_no_match(a: Seq<char>, rest: Seq<char>)
    requires
        !a.contains('\n'),
    ensures
        forall|i: int| 0 <= i < a.len() ==> !match_at(a + line_sep() + rest, line_sep(), i),
{
    let s = a + line_sep() + rest;
    assert forall|i: int| 0 <= i < a.len() implies !match_at(s, line_sep(), i) by {
        if match_at(s, line_sep(), i) {
            assert(s.subrange(i, i + 1)[0] == a[i]);
        }
    }
}

/// A record with clean fields reads back from its line.
pub proof fn lemma_line_round_trip(r: RecordModel)
    requires
        clean_field(r.0),
        clean_field(r.1.0),
        clean_field(r.1.1),
    ensures
        line_of(r).len() > 0,
        !line_of(r).contains('\n'),
        record_of_line(line_of(r)) == Some(r),
{
    let fs = field_sep();
    let (n, (m, w)) = r;
    assert(line_of(r) =~= n + fs + (m + fs + w));
    lemma_clean_no_match(n, m + fs + w);
    lemma_split_prefix(n, fs, m + fs + w);
    lemma_clean_no_match(m, w);
    lemma_split_prefix(m, fs, w);
    lemma_split_no_match(w, fs);
    assert(split_on(line_of(r), fs) =~= seq![n, m, w]);
    let line = line_of(r);
    assert forall|k: int| 0 <= k < line.len() implies line[k] != '\n' by {
        if k < n.len() {
            assert(line[k] == n[k]);
        } else if k < n.len() + 2 {
        } else if k < n.len() + 2 + m.len() {
            assert(line[k] == m[k - n.len() - 2]);
        } else if k < n.len() + 4 + m.len() {
        } else {
            assert(line[k] == w[k - n.len() - 4 - m.len()]);
        }
    }
}

/// Records with clean fields read back from their text.
pub proof fn lemma_text_round_trip(rs: Seq<RecordModel>)
    requires
        clean_records(rs),
    ensures
        records_of_text(text_of(rs)) == Some(rs),
    decreases rs.len(),
{
    if rs.len() == 0 {
        assert(text_of(rs) =~= Seq::<char>::empty());
        let ls = split_on(text_of(rs), line_sep());
        assert(ls == seq![Seq::<char>::empty()]);
        assert(ls.drop_first() =~= Seq::<Seq<char>>::empty());
        assert(records_of_lines(ls.drop_first()) == Some(Seq::<RecordModel>::empty()));
        assert(rs =~= Seq::<RecordModel>::empty());
    } else {
        let rest = rs.drop_first();
        assert(clean_records(rest)) by {
            assert forall|i: int| 0 <= i < rest.len() implies {
                &&& clean_field(#[trigger] rest[i].0)
                &&& clean_field(rest[i].1.0)
                &&& clean_field(rest[i].1.1)
            } by {
                assert(rest[i] == rs[i + 1]);
            }
        }
        lemma_text_round_trip(rest);
        assert(clean_field(rs[0].0));
        lemma_line_round_trip(rs[0]);
        lemma_no_newline_no_match(line_of(rs[0]), text_of(rest));
        lemma_split_prefix(line_of(rs[0]), line_sep(), text_of(rest));
        let ls = split_on(text_of(rs), line_sep());
        assert(ls == seq![line_of(rs[0])] + split_on(text_of(rest), line_sep()));
        assert(ls.drop_first() =~= split_on(text_of(rest), line_sep()));
        assert(seq![rs[0]] + rest =~= rs);
    }
}

/// Every record read from lines without newlines has clean fields.
pub proof fn lemma_lines_clean(ls: Seq<Seq<char>>)
    requires
        forall|j: int| 0 <= j < ls.len() ==> !(#[trigger] ls[j]).contains('\n'),
        records_of_lines(ls) is Some,
    ensures
        clean_records(records_of_lines(ls)->Some_0),
    decreases ls.len(),
{
    if ls.len() > 0 {
        let t = ls.drop_first();
        assert forall|j: int| 0 <= j < t.len() implies !(#[trigger] t[j]).contains('\n') by {
            assert(t[j] == ls[j + 1]);
        }
        lemma_lines_clean(t);
        let rest = records_of_lines(t)->Some_0;
        if ls[0].len() > 0 {
            let f = split_on(ls[0], field_sep());
            assert(!ls[0].contains('\n'));
            lemma_split_pieces_no_match(ls[0], field_sep());
            lemma_split_pieces_lack(ls[0], field_sep(), '\n');
            let r = record_of_line(ls[0])->Some_0;
            assert(clean_field(f[0]) && clean_field(f[1]) && clean_field(f[2]));
            let all = seq![r] + rest;
            assert forall|i: int| 0 <= i < all.len() implies {
                &&& clean_field(#[trigger] all[i].0)
                &&& clean_field(all[i].1.0)
                &&& clean_field(all[i].1.1)
            } by {
                if i > 0 {
                    assert(all[i] == rest[i - 1]);
                }
            }
            assert(records_of_lines(ls) == Some(all));
        } else {
            assert(records_of_lines(ls) == Some(rest));
        }
    } else {
        assert(records_of_lines(ls) == Some(Seq::<RecordModel>::empty()));
    }
}

/// Every record read from a text has clean fields.
pub proof fn lemma_text_clean(t: Seq<char>)
    requires
        records_of_text(t) is Some,
    ensures
        clean_records(records_of_text(t)->Some_0),
{
    let ls = split_on(t, line_sep());
    lemma_split_pieces_no_match(t, line_sep());
    assert forall|j: int| 0 <= j < ls.len() implies !(#[trigger] ls[j]).contains('\n') by {
        if ls[j].contains('\n') {
            let k = choose|k: int| 0 <= k < ls[j].len() && ls[j][k] == '\n';
            assert(ls[j].subrange(k, k + 1) =~= line_sep());
            assert(match_at(ls[j], line_sep(), k));
        }
    }
    lemma_lines_clean(ls);
}

} // verus!
