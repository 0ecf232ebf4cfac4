use vstd::prelude::*;
use vstd::string::StringSliceAdditionalSpecFns;
use crate::concurrency::{copy_range, keyword};

verus! {

/// A `[[package]]` record of a lock file: its name and version bytes.
pub struct LockEntry {
    pub name: Vec<u8>,
    pub version: Vec<u8>,
}

/// The lines of a text, split at each newline byte (the last may be empty).
pub open spec fn split_lines(t: Seq<u8>) -> Seq<Seq<u8>>
    decreases t.len(),
{
    if t.len() == 0 {
        seq![Seq::empty()]
    } else {
        let s = split_lines(t.drop_last());
        if t.last() == 10u8 {
            s.push(Seq::empty())
        } else {
            s.update(s.len() - 1, s.last().push(t.last()))
        }
    }
}

proof fn lemma_split_nonempty(t: Seq<u8>)
    ensures
        split_lines(t).len() >= 1,
    decreases t.len(),
{
    if t.len() > 0 {
        lemma_split_nonempty(t.drop_last());
    }
}

/// The value of a line of the form `<prefix><value>"`.
pub open spec fn field_value(line: Seq<u8>, prefix: Seq<u8>) -> Option<Seq<u8>> {
    if line.len() >= prefix.len() + 1 && line.subrange(0, prefix.len() as int) == prefix && line.last()
        == 34u8 {
        Some(line.subrange(prefix.len() as int, line.len() - 1))
    } else {
        None
    }
}

/// A line without its carriage return, if it ends in one.
pub open spec fn trim_cr(line: Seq<u8>) -> Seq<u8> {
    if line.len() > 0 && line.last() == 13u8 {
        line.drop_last()
    } else {
        line
    }
}

fn line_end(text: &[u8], lo: usize, hi: usize) -> (e: usize)
    requires
        lo <= hi <= text@.len(),
    ensures
        lo <= e <= hi,
        text@.subrange(lo as int, e as int) == trim_cr(text@.subrange(lo as int, hi as int)),
{
    if hi > lo && text[hi - 1] == 13u8 {
        assert(text@.subrange(lo as int, hi - 1) =~= text@.subrange(lo as int, hi as int).drop_last());
        hi - 1
    } else {
        hi
    }
}

/// Records found so far, and the name that waits for its version.
pub type LockState = (Seq<(Seq<u8>, Seq<u8>)>, Option<Seq<u8>>);

/// One line's effect: a `[[package]]` header drops a waiting name, a name
/// line sets it, and a version line completes the record of a waiting name.
pub open spec fn lock_step(st: LockState, line: Seq<u8>) -> LockState {
    if line == "[[package]]".spec_bytes() {
        (st.0, None)
    } else if field_value(line, "name = \"".spec_bytes()) is Some {
        (st.0, field_value(line, "name = \"".spec_bytes()))
    } else if field_value(line, "version = \"".spec_bytes()) is Some {
        match st.1 {
            Some(n) => (st.0.push((n, field_value(line, "version = \"".spec_bytes())->0)), None),
            None => (st.0, None),
        }
    } else {
        st
    }
}

pub open spec fn lock_fold(lines: Seq<Seq<u8>>) -> LockState
    decreases lines.len(),
{
    if lines.len() == 0 {
        (Seq::empty(), None)
    } else {
        lock_step(lock_fold(lines.drop_last()), trim_cr(lines.last()))
    }
}

pub open spec fn entries_view(es: Seq<LockEntry>) -> Seq<(Seq<u8>, Seq<u8>)> {
    es.map_values(|e: LockEntry| (e.name@, e.version@))
}

pub open spec fn opt_view(o: Option<Vec<u8>>) -> Option<Seq<u8>> {
    match o {
        Some(v) => Some(v@),
        None => None,
    }
}

fn starts_with_at(text: &[u8], lo: usize, hi: usize, prefix: &Vec<u8>) -> (r: bool)
    requires
        lo <= hi <= text@.len(),
    ensures
        r == (prefix@.len() <= hi - lo && text@.subrange(lo as int, hi as int).subrange(
            0,
            prefix@.len() as int,
        ) == prefix@),
{
    let ghost line = text@.subrange(lo as int, hi as int);
    let m = prefix.len();
    if m > hi - lo {
        return false;
    }
    let mut k: usize = 0;
    while k < m
        invariant
            m == prefix@.len(),
            m <= hi - lo,
            lo <= hi <= text@.len(),
            line == text@.subrange(lo as int, hi as int),
            k <= m,
            forall|x: int| 0 <= x < k ==> text@[lo + x] == prefix@[x],
        decreases m - k,
    {
        if text[lo + k] != prefix[k] {
            assert(line.subrange(0, m as int)[k as int] != prefix@[k as int]);
            return false;
        }
        k += 1;
    }
    assert(line.subrange(0, m as int) =~= prefix@);
    true
}

fn field_in(text: &[u8], lo: usize, hi: usize, prefix: &Vec<u8>) -> (r: Option<Vec<u8>>)
    requires
        lo <= hi <= text@.len(),
    ensures
        match r {
            Some(v) => field_value(text@.subrange(lo as int, hi as int), prefix@) == Some(v@),
            None => field_value(text@.subrange(lo as int, hi as int), prefix@) is None,
        },
{
    let ghost line = text@.subrange(lo as int, hi as int);
    let m = prefix.len();
    if hi - lo > m && starts_with_at(text, lo, hi, prefix) && text[hi - 1] == 34u8 {
        let v = copy_range(text, lo + m, hi - 1);
        assert(v@ =~= line.subrange(m as int, line.len() - 1));
        Some(v)
    } else {
        None
    }
}

fn line_is(text: &[u8], lo: usize, hi: usize, pat: &Vec<u8>) -> (r: bool)
    requires
        lo <= hi <= text@.len(),
    ensures
        r == (text@.subrange(lo as int, hi as int) == pat@),
{
    let ghost line = text@.subrange(lo as int, hi as int);
    if hi - lo != pat.len() {
        return false;
    }
    let r = starts_with_at(text, lo, hi, pat);
    assert(line.subrange(0, line.len() as int) =~= line);
    r
}

struct LockReader {
    header: Vec<u8>,
    name_prefix: Vec<u8>,
    version_prefix: Vec<u8>,
}

impl LockReader {
    spec fn ready(&self) -> bool {
        &&& self.header@ == "[[package]]".spec_bytes()
        &&& self.name_prefix@ == "name = \"".spec_bytes()
        &&& self.version_prefix@ == "version = \"".spec_bytes()
    }

    fn step(
        &self,
        text: &[u8],
        lo: usize,
        hi: usize,
        records: &mut Vec<LockEntry>,
        pending: &mut Option<Vec<u8>>,
    )
        requires
            self.ready(),
            lo <= hi <= text@.len(),
        ensures
            (entries_view(final(records)@), opt_view(*final(pending))) == lock_step(
                (entries_view(old(records)@), opt_view(*old(pending))),
                text@.subrange(lo as int, hi as int),
            ),
    {
        if line_is(text, lo, hi, &self.header) {
            *pending = None;
            return;
        }
        match field_in(text, lo, hi, &self.name_prefix) {
            Some(n) => {
                *pending = Some(n);
                return;
            },
            None => {},
        }
        match field_in(text, lo, hi, &self.version_prefix) {
            Some(v) => {
                let p = pending.take();
                match p {
                    Some(n) => {
                        let ghost before = records@;
                        records.push(LockEntry { name: n, version: v });
                        assert(entries_view(records@) =~= entries_view(before).push((n@, v@)));
                    },
                    None => {},
                }
            },
            None => {},
        }
    }
}

/// The `(name, version)` records of a Cargo lock file, in the order they
/// appear: a record is a `name = "..."` line followed by a `version = "..."`
/// line with no `[[package]]` header between them.
pub fn parse_lock(text: &[u8]) -> (r: Vec<LockEntry>)
    ensures
        entries_view(r@) == lock_fold(split_lines(text@)).0,
{
    let reader = LockReader {
        header: keyword("[[package]]"),
        name_prefix: keyword("name = \""),
        version_prefix: keyword("version = \""),
    };
    let mut records: Vec<LockEntry> = Vec::new();
    let mut pending: Option<Vec<u8>> = None;
    let n = text.len();
    let mut start: usize = 0;
    let mut i: usize = 0;
    while i < n
        invariant
            reader.ready(),
            n == text@.len(),
            start <= i <= n,
            split_lines(text@.take(i as int)).last() == text@.subrange(start as int, i as int),
            (entries_view(records@), opt_view(pending)) == lock_fold(
                split_lines(text@.take(i as int)).drop_last(),
            ),
        decreases n - i,
    {
        let ghost pre = text@.take(i as int);
        let ghost next = text@.take(i + 1);
        proof {
            assert(next.drop_last() =~= pre);
            lemma_split_nonempty(pre);
        }
        if text[i] == 10u8 {
            let e = line_end(text, start, i);
            reader.step(text, start, e, &mut records, &mut pending);
            proof {
                let s = split_lines(pre);
                assert(split_lines(next) == s.push(Seq::<u8>::empty()));
                assert(split_lines(next).drop_last() =~= s);
                assert(s =~= s.drop_last().push(s.last()));
                assert(text@.subrange(i + 1, i + 1) =~= Seq::<u8>::empty());
            }
            start = i + 1;
        } else {
            proof {
                let s = split_lines(pre);
                assert(split_lines(next).drop_last() =~= s.drop_last());
                assert(text@.subrange(start as int, i + 1) =~= text@.subrange(start as int, i as int).push(text@[i as int]));
            }
        }
        i += 1;
    }
    let e = line_end(text, start, n);
    reader.step(text, start, e, &mut records, &mut pending);
    proof {
        assert(text@.take(n as int) =~= text@);
        let s = split_lines(text@);
        lemma_split_nonempty(text@);
        assert(s =~= s.drop_last().push(s.last()));
    }
    records
}

} // verus!
