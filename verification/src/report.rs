//! Reading the finalized blocks that nodes report, and checking that they agree.

use vstd::prelude::*;

verus! {

/// Whether `c` is white space (Unicode `White_Space`, as `char::is_whitespace` has it).
pub open spec fn is_ws(c: char) -> bool {
    ||| ('\u{9}' <= c && c <= '\u{d}')
    ||| c == ' '
    ||| c == '\u{85}'
    ||| c == '\u{a0}'
    ||| c == '\u{1680}'
    ||| ('\u{2000}' <= c && c <= '\u{200a}')
    ||| c == '\u{2028}'
    ||| c == '\u{2029}'
    ||| c == '\u{202f}'
    ||| c == '\u{205f}'
    ||| c == '\u{3000}'
}

fn is_whitespace(c: char) -> (w: bool)
    ensures
        w == is_ws(c),
{
    ('\u{9}' <= c && c <= '\u{d}') || c == ' ' || c == '\u{85}' || c == '\u{a0}' || c == '\u{1680}' || ('\u{2000}' <= c
        && c <= '\u{200a}') || c == '\u{2028}' || c == '\u{2029}' || c == '\u{202f}' || c == '\u{205f}' || c
        == '\u{3000}'
}

/// `s` without leading white space.
pub open spec fn trim_start(s: Seq<char>) -> Seq<char>
    decreases s.len(),
{
    if s.len() > 0 && is_ws(s[0]) {
        trim_start(s.drop_first())
    } else {
        s
    }
}

/// `s` without trailing white space.
pub open spec fn trim_end(s: Seq<char>) -> Seq<char>
    decreases s.len(),
{
    if s.len() > 0 && is_ws(s.last()) {
        trim_end(s.drop_last())
    } else {
        s
    }
}

/// `s` without leading and trailing white space.
pub open spec fn trim(s: Seq<char>) -> Seq<char> {
    trim_end(trim_start(s))
}

/// The value of a string of decimal digits.
pub open spec fn decimal_value(s: Seq<char>) -> int
    decreases s.len(),
{
    if s.len() == 0 {
        0
    } else {
        decimal_value(s.drop_last()) * 10 + (s.last() as int - '0' as int)
    }
}

/// Whether `c` is an ASCII decimal digit.
pub open spec fn is_digit(c: char) -> bool {
    '0' <= c && c <= '9'
}

/// `s` without one leading `+`, if it has one.
pub open spec fn unsigned_digits(s: Seq<char>) -> Seq<char> {
    if s.len() > 0 && s[0] == '+' {
        s.drop_first()
    } else {
        s
    }
}

/// Whether every character of `s` is a decimal digit.
pub open spec fn all_digits(s: Seq<char>) -> bool {
    forall|i: int| 0 <= i < s.len() ==> is_digit(#[trigger] s[i])
}

/// What parsing `s` as a `u64` gives, as `str::parse` does it: an optional
/// `+`, then at least one decimal digit, and a value that fits.
pub open spec fn parse_u64_spec(s: Seq<char>) -> Option<u64> {
    let digits = unsigned_digits(s);
    if digits.len() == 0 {
        None
    } else if !all_digits(digits) {
        None
    } else if decimal_value(digits) > u64::MAX {
        None
    } else {
        Some(decimal_value(digits) as u64)
    }
}

/// The ASCII characters of `slot `.
pub open spec fn slot_prefix() -> Seq<char> {
    seq!['s', 'l', 'o', 't', ' ']
}

/// What a node's line `slot <number>: <hash>` reports: the slot and the hash,
/// when the trimmed line starts with `slot `, holds exactly one `:`, and the
/// part before it, trimmed, is `slot ` and a number (or, cut short, `slot`,
/// which reads as slot 0).
pub open spec fn spec_parse_finalized_line(line: Seq<char>) -> Option<(u64, Seq<char>)> {
    let t = trim(line);
    if !(t.len() >= 5 && t.take(5) == slot_prefix()) {
        None
    } else if !(exists|c: int| 0 <= c < t.len() && t[c] == ':') {
        None
    } else {
        let c = choose|c: int| 0 <= c < t.len() && t[c] == ':';
        if exists|d: int| 0 <= d < t.len() && d != c && t[d] == ':' {
            None
        } else {
            let head = trim(t.take(c));
            let tail = trim(t.skip(c + 1));
            let number = if head.len() >= 5 && head.take(5) == slot_prefix() { head.skip(5) } else { seq!['0'] };
            match parse_u64_spec(number) {
                Some(slot) => Some((slot, tail)),
                None => None,
            }
        }
    }
}

fn trim_bounds(s: &Vec<char>, lo: usize, hi: usize) -> (out: (usize, usize))
    requires
        lo <= hi <= s@.len(),
    ensures
        lo <= out.0 <= out.1 <= hi,
        s@.subrange(out.0 as int, out.1 as int) == trim(s@.subrange(lo as int, hi as int)),
{
    let mut a = lo;
    while a < hi && is_whitespace(s[a])
        invariant
            lo <= a <= hi <= s@.len(),
            trim_start(s@.subrange(lo as int, hi as int)) == trim_start(s@.subrange(a as int, hi as int)),
        decreases hi - a,
    {
        assert(s@.subrange(a as int, hi as int).drop_first() =~= s@.subrange(a + 1, hi as int));
        a = a + 1;
    }
    let mut b = hi;
    while b > a && is_whitespace(s[b - 1])
        invariant
            lo <= a <= b <= hi <= s@.len(),
            trim_end(s@.subrange(a as int, hi as int)) == trim_end(s@.subrange(a as int, b as int)),
        decreases b - a,
    {
        assert(s@.subrange(a as int, b as int).drop_last() =~= s@.subrange(a as int, b - 1));
        b = b - 1;
    }
    (a, b)
}

fn parse_u64(s: &Vec<char>, lo: usize, hi: usize) -> (r: Option<u64>)
    requires
        lo <= hi <= s@.len(),
    ensures
        r == parse_u64_spec(s@.subrange(lo as int, hi as int)),
{
    let ghost whole = s@.subrange(lo as int, hi as int);
    let mut start = lo;
    if lo < hi && s[lo] == '+' {
        start = lo + 1;
    }
    let ghost digits = s@.subrange(start as int, hi as int);
    assert(digits =~= unsigned_digits(whole));
    if start == hi {
        return None;
    }
    let mut v: u64 = 0;
    let mut i = start;
    while i < hi
        invariant
            lo <= start <= i <= hi <= s@.len(),
            digits == s@.subrange(start as int, hi as int),
            whole == s@.subrange(lo as int, hi as int),
            digits == unsigned_digits(whole),
            digits.len() > 0,
            forall|j: int| start <= j < i ==> is_digit(s@[j]),
            v == decimal_value(s@.subrange(start as int, i as int)),
        decreases hi - i,
    {
        let c = s[i];
        assert(s@.subrange(start as int, i + 1).drop_last() =~= s@.subrange(start as int, i as int));
        if !('0' <= c && c <= '9') {
            assert(digits[i - start] == c);
            assert(!is_digit(digits[i - start]));
            assert(!all_digits(digits));
            return None;
        }
        let d = (c as u32 - '0' as u32) as u64;
        if v > (u64::MAX - d) / 10 {
            proof {
                assert(v * 10 + d > u64::MAX) by (nonlinear_arith)
                    requires
                        v > (u64::MAX - d) / 10,
                        d <= 9,
                ;
                assert(decimal_value(s@.subrange(start as int, i + 1)) == v * 10 + d);
                if all_digits(digits) {
                    lemma_decimal_value_monotone(digits, (i + 1 - start) as nat);
                    assert(digits.take(i + 1 - start) =~= s@.subrange(start as int, i + 1));
                }
            }
            return None;
        }
        v = v * 10 + d;
        i = i + 1;
    }
    assert(s@.subrange(start as int, i as int) =~= digits);
    Some(v)
}

fn slot_prefix_at(s: &Vec<char>, a: usize, b: usize) -> (r: bool)
    requires
        a <= b <= s@.len(),
    ensures
        r == (b - a >= 5 && s@.subrange(a as int, b as int).take(5) == slot_prefix()),
{
    if b - a < 5 {
        return false;
    }
    let r = s[a] == 's' && s[a + 1] == 'l' && s[a + 2] == 'o' && s[a + 3] == 't' && s[a + 4] == ' ';
    proof {
        let t = s@.subrange(a as int, b as int).take(5);
        if r {
            assert(t =~= slot_prefix());
        } else if t == slot_prefix() {
            assert(t[0] == s@[a as int] && t[1] == s@[a + 1] && t[2] == s@[a + 2] && t[3] == s@[a + 3] && t[4]
                == s@[a + 4]);
            assert(false);
        }
    }
    r
}

fn copy_chars(s: &Vec<char>, a: usize, b: usize) -> (out: Vec<char>)
    requires
        a <= b <= s@.len(),
    ensures
        out@ == s@.subrange(a as int, b as int),
{
    let mut out: Vec<char> = Vec::new();
    let mut k = a;
    while k < b
        invariant
            a <= k <= b <= s@.len(),
            out@ == s@.subrange(a as int, k as int),
        decreases b - k,
    {
        out.push(s[k]);
        k = k + 1;
        assert(out@ =~= s@.subrange(a as int, k as int));
    }
    out
}

/// The view of a parsed line: the slot, and the hash as characters.
pub open spec fn entry_view(e: (u64, Vec<char>)) -> (u64, Seq<char>) {
    (e.0, e.1@)
}

/// The view of what `parse_finalized_line` returns.
pub open spec fn parsed_view(r: Option<(u64, Vec<char>)>) -> Option<(u64, Seq<char>)> {
    match r {
        Some(e) => Some(entry_view(e)),
        None => None,
    }
}

/// Reads a node's report of a finalized block, a line `slot <number>: <hash>`:
/// the slot and the hash, trimmed, exactly where `spec_parse_finalized_line` says.
pub fn parse_finalized_line(line: &Vec<char>) -> (r: Option<(u64, Vec<char>)>)
    ensures
        parsed_view(r) == spec_parse_finalized_line(line@),
{
    let n = line.len();
    let (a, b) = trim_bounds(line, 0, n);
    let ghost t = line@.subrange(a as int, b as int);
    assert(line@.subrange(0, n as int) =~= line@);
    if !slot_prefix_at(line, a, b) {
        return None;
    }
    let mut c = a;
    while c < b && line[c] != ':'
        invariant
            a <= c <= b <= line@.len(),
            forall|j: int| a <= j < c ==> line@[j] != ':',
        decreases b - c,
    {
        c = c + 1;
    }
    if c == b {
        assert forall|j: int| 0 <= j < t.len() implies t[j] != ':' by {
            assert(t[j] == line@[a + j]);
        }
        return None;
    }
    assert(t[c - a] == ':');
    let mut d = c + 1;
    while d < b
        invariant
            a <= c < d <= b <= line@.len(),
            forall|j: int| c < j < d ==> line@[j] != ':',
            t == line@.subrange(a as int, b as int),
            t == trim(line@),
            t.len() >= 5 && t.take(5) == slot_prefix(),
            line@[c as int] == ':',
        decreases b - d,
    {
        if line[d] == ':' {
            assert(t[d - a] == ':' && t[c - a] == ':' && d - a != c - a);
            return None;
        }
        d = d + 1;
    }
    proof {
        assert forall|j: int| 0 <= j < t.len() && j != c - a implies t[j] != ':' by {
            assert(t[j] == line@[a + j]);
        }
        let cc = choose|cc: int| 0 <= cc < t.len() && t[cc] == ':';
        assert(cc == c - a);
        assert(line@.subrange(a as int, c as int) =~= t.take(c - a));
        assert(line@.subrange(c + 1, b as int) =~= t.skip(c - a + 1));
    }
    let (h0, h1) = trim_bounds(line, a, c);
    let (t0, t1) = trim_bounds(line, c + 1, b);
    let parsed = if slot_prefix_at(line, h0, h1) {
        assert(line@.subrange(h0 + 5, h1 as int) =~= line@.subrange(h0 as int, h1 as int).skip(5));
        parse_u64(line, h0 + 5, h1)
    } else {
        proof {
            let z = seq!['0'];
            assert(z.drop_last() =~= Seq::<char>::empty());
            assert(unsigned_digits(z) =~= z);
            assert(z.last() == '0');
            assert(decimal_value(z.drop_last()) == 0);
            assert(decimal_value(z) == 0);
            assert(all_digits(z));
        }
        Some(0u64)
    };
    match parsed {
        Some(slot) => {
            let hash = copy_chars(line, t0, t1);
            Some((slot, hash))
        },
        None => None,
    }
}

/// How the check of the nodes' reports comes out.
#[derive(Clone, Copy, Debug, PartialEq, Eq, Structural)]
pub enum Verdict {
    /// Two nodes finalized different blocks in one slot.
    SafetyViolation,
    /// No conflict, but some node finalized fewer blocks than another.
    Lagging,
    /// No conflict, every node finalized the same number of blocks, at least one.
    Achieved,
    /// No node finalized anything.
    NoBlocks,
}

/// A slot for which a report names another hash than the first report of that slot.
pub struct Conflict {
    pub slot: u64,
    pub hash: Vec<char>,
    pub existing: Vec<char>,
}

/// What the check of the nodes' reports finds.
pub struct ConsensusCheck {
    /// Every report that disagrees with the first report of its slot, in the order read.
    pub conflicts: Vec<Conflict>,
    /// The largest number of blocks that one node reported.
    pub max_finalized: usize,
    /// The nodes, by index, that reported fewer blocks than `max_finalized`, in order.
    pub lagging: Vec<usize>,
    pub verdict: Verdict,
}

/// One node's reports as plain values.
pub open spec fn node_view(v: Seq<(u64, Vec<char>)>) -> Seq<(u64, Seq<char>)> {
    Seq::new(v.len(), |k: int| entry_view(v[k]))
}

/// All nodes' reports as plain values.
pub open spec fn reports_view(f: Seq<Vec<(u64, Vec<char>)>>) -> Seq<Seq<(u64, Seq<char>)>> {
    Seq::new(f.len(), |i: int| node_view(f[i]@))
}

/// The reports of all nodes, node after node.
pub open spec fn flatten(r: Seq<Seq<(u64, Seq<char>)>>) -> Seq<(u64, Seq<char>)>
    decreases r.len(),
{
    if r.len() == 0 {
        Seq::empty()
    } else {
        flatten(r.drop_last()) + r.last()
    }
}

/// The hash of the first report of `slot` in `s`, if there is one.
pub open spec fn first_hash(s: Seq<(u64, Seq<char>)>, slot: u64) -> Option<Seq<char>>
    decreases s.len(),
{
    if s.len() == 0 {
        None
    } else {
        match first_hash(s.drop_last(), slot) {
            Some(h) => Some(h),
            None => if s.last().0 == slot {
                Some(s.last().1)
            } else {
                None
            },
        }
    }
}

/// Each report of `s` whose hash differs from the first report of its slot:
/// the slot, its hash and the first hash, in order.
pub open spec fn conflicts_of(s: Seq<(u64, Seq<char>)>) -> Seq<(u64, Seq<char>, Seq<char>)>
    decreases s.len(),
{
    if s.len() == 0 {
        Seq::empty()
    } else {
        let e = s.last();
        match first_hash(s.drop_last(), e.0) {
            Some(h) => if h != e.1 {
                conflicts_of(s.drop_last()).push((e.0, e.1, h))
            } else {
                conflicts_of(s.drop_last())
            },
            None => conflicts_of(s.drop_last()),
        }
    }
}

/// The largest number of reports of one node.
pub open spec fn max_len(r: Seq<Seq<(u64, Seq<char>)>>) -> nat
    decreases r.len(),
{
    if r.len() == 0 {
        0
    } else if max_len(r.drop_last()) < r.last().len() {
        r.last().len()
    } else {
        max_len(r.drop_last())
    }
}

/// The indices below `k` of the nodes with fewer than `m` reports, in order.
pub open spec fn lagging_of(r: Seq<Seq<(u64, Seq<char>)>>, m: nat, k: int) -> Seq<int>
    decreases k,
{
    if k <= 0 {
        Seq::empty()
    } else if r[k - 1].len() < m {
        lagging_of(r, m, k - 1).push(k - 1)
    } else {
        lagging_of(r, m, k - 1)
    }
}

/// The verdict on the nodes' reports.
pub open spec fn verdict_of(r: Seq<Seq<(u64, Seq<char>)>>) -> Verdict {
    if conflicts_of(flatten(r)).len() > 0 {
        Verdict::SafetyViolation
    } else if lagging_of(r, max_len(r), r.len() as int).len() > 0 {
        Verdict::Lagging
    } else if max_len(r) > 0 {
        Verdict::Achieved
    } else {
        Verdict::NoBlocks
    }
}

pub open spec fn conflict_view(c: Conflict) -> (u64, Seq<char>, Seq<char>) {
    (c.slot, c.hash@, c.existing@)
}

pub open spec fn conflicts_view(v: Seq<Conflict>) -> Seq<(u64, Seq<char>, Seq<char>)> {
    Seq::new(v.len(), |k: int| conflict_view(v[k]))
}

pub open spec fn indices_view(v: Seq<usize>) -> Seq<int> {
    Seq::new(v.len(), |k: int| v[k] as int)
}

proof fn lemma_first_hash_prefix(s: Seq<(u64, Seq<char>)>, m: int, slot: u64)
    requires
        0 <= m <= s.len(),
        first_hash(s.take(m), slot) is Some,
    ensures
        first_hash(s, slot) == first_hash(s.take(m), slot),
    decreases s.len(),
{
    if m == s.len() {
        assert(s.take(m) =~= s);
    } else {
        assert(s.drop_last().take(m) =~= s.take(m));
        lemma_first_hash_prefix(s.drop_last(), m, slot);
    }
}

fn same_chars(a: &Vec<char>, b: &Vec<char>) -> (r: bool)
    ensures
        r == (a@ == b@),
{
    if a.len() != b.len() {
        return false;
    }
    let mut k: usize = 0;
    while k < a.len()
        invariant
            a@.len() == b@.len(),
            k <= a@.len(),
            forall|j: int| 0 <= j < k ==> a@[j] == b@[j],
        decreases a@.len() - k,
    {
        if a[k] != b[k] {
            return false;
        }
        k = k + 1;
    }
    assert(a@ =~= b@);
    true
}

fn find_first(seen: &Vec<(u64, Vec<char>)>, slot: u64) -> (r: Option<usize>)
    ensures
        match r {
            Some(k) => k < seen@.len() && first_hash(node_view(seen@), slot) == Some(seen@[k as int].1@),
            None => first_hash(node_view(seen@), slot) is None,
        },
{
    let ghost v = node_view(seen@);
    let mut k: usize = 0;
    while k < seen.len()
        invariant
            k <= seen@.len(),
            v == node_view(seen@),
            first_hash(v.take(k as int), slot) is None,
        decreases seen@.len() - k,
    {
        assert(v.take(k + 1).drop_last() =~= v.take(k as int));
        if seen[k].0 == slot {
            proof {
                lemma_first_hash_prefix(v, k + 1, slot);
            }
            return Some(k);
        }
        k = k + 1;
    }
    assert(v.take(k as int) =~= v);
    None
}

fn copy_all(s: &Vec<char>) -> (out: Vec<char>)
    ensures
        out@ == s@,
{
    let out = copy_chars(s, 0, s.len());
    assert(s@.subrange(0, s@.len() as int) =~= s@);
    out
}

fn max_finalized(f: &Vec<Vec<(u64, Vec<char>)>>) -> (m: usize)
    ensures
        m == max_len(reports_view(f@)),
{
    let ghost r = reports_view(f@);
    let mut m: usize = 0;
    let mut i: usize = 0;
    while i < f.len()
        invariant
            i <= f@.len(),
            r == reports_view(f@),
            m == max_len(r.take(i as int)),
        decreases f@.len() - i,
    {
        assert(r.take(i + 1).drop_last() =~= r.take(i as int));
        assert(r[i as int].len() == f@[i as int]@.len());
        if f[i].len() > m {
            m = f[i].len();
        }
        i = i + 1;
    }
    assert(r.take(i as int) =~= r);
    m
}

fn lagging_nodes(f: &Vec<Vec<(u64, Vec<char>)>>, m: usize) -> (out: Vec<usize>)
    ensures
        indices_view(out@) == lagging_of(reports_view(f@), m as nat, f@.len() as int),
{
    let ghost r = reports_view(f@);
    let mut out: Vec<usize> = Vec::new();
    let mut i: usize = 0;
    while i < f.len()
        invariant
            i <= f@.len(),
            r == reports_view(f@),
            indices_view(out@) == lagging_of(r, m as nat, i as int),
        decreases f@.len() - i,
    {
        assert(r[i as int].len() == f@[i as int]@.len());
        if f[i].len() < m {
            out.push(i);
            assert(indices_view(out@) =~= lagging_of(r, m as nat, i as int).push(i as int));
        }
        i = i + 1;
    }
    out
}

/// Checks the finalized blocks that the live nodes reported, node by node in
/// index order: every report that names another hash than the first report of
/// its slot is a conflict; nodes with fewer blocks than the most any node has
/// lag; and the verdict follows from these.
pub fn check_consensus(finalized: &Vec<Vec<(u64, Vec<char>)>>) -> (out: ConsensusCheck)
    ensures
        conflicts_view(out.conflicts@) == conflicts_of(flatten(reports_view(finalized@))),
        out.max_finalized == max_len(reports_view(finalized@)),
        indices_view(out.lagging@) == lagging_of(
            reports_view(finalized@),
            max_len(reports_view(finalized@)),
            finalized@.len() as int,
        ),
        out.verdict == verdict_of(reports_view(finalized@)),
{
    let ghost r = reports_view(finalized@);
    let mut seen: Vec<(u64, Vec<char>)> = Vec::new();
    let mut conflicts: Vec<Conflict> = Vec::new();
    let ghost mut done: Seq<(u64, Seq<char>)> = Seq::empty();
    let mut i: usize = 0;
    while i < finalized.len()
        invariant
            i <= finalized@.len(),
            r == reports_view(finalized@),
            done == flatten(r.take(i as int)),
            forall|slot: u64| first_hash(node_view(seen@), slot) == first_hash(done, slot),
            conflicts_view(conflicts@) == conflicts_of(done),
        decreases finalized@.len() - i,
    {
        let blocks = &finalized[i];
        let mut j: usize = 0;
        assert(r.take(i as int + 1).drop_last() =~= r.take(i as int));
        assert(done =~= flatten(r.take(i as int)) + r[i as int].take(0));
        while j < blocks.len()
            invariant
                i < finalized@.len(),
                j <= blocks@.len(),
                *blocks == finalized@[i as int],
                r == reports_view(finalized@),
                done == flatten(r.take(i as int)) + r[i as int].take(j as int),
                forall|slot: u64| first_hash(node_view(seen@), slot) == first_hash(done, slot),
                conflicts_view(conflicts@) == conflicts_of(done),
            decreases blocks@.len() - j,
        {
            let slot = blocks[j].0;
            let hash = &blocks[j].1;
            let ghost e = (slot, hash@);
            assert(r[i as int][j as int] == e);
            let ghost before = done;
            proof {
                done = done.push(e);
                assert(done.drop_last() =~= before);
                assert(done =~= flatten(r.take(i as int)) + r[i as int].take(j + 1));
            }
            match find_first(&seen, slot) {
                Some(k) => {
                    if !same_chars(&seen[k].1, hash) {
                        let c = Conflict { slot, hash: copy_all(hash), existing: copy_all(&seen[k].1) };
                        conflicts.push(c);
                        assert(conflicts_view(conflicts@) =~= conflicts_of(before).push(
                            (slot, hash@, seen@[k as int].1@),
                        ));
                    }
                    assert forall|s: u64| first_hash(node_view(seen@), s) == first_hash(done, s) by {
                        assert(first_hash(before, s) == first_hash(node_view(seen@), s));
                    }
                },
                None => {
                    let ghost old_seen = node_view(seen@);
                    seen.push((slot, copy_all(hash)));
                    assert(node_view(seen@).drop_last() =~= old_seen);
                    assert forall|s: u64| first_hash(node_view(seen@), s) == first_hash(done, s) by {
                        assert(first_hash(before, s) == first_hash(old_seen, s));
                    }
                },
            }
            j = j + 1;
        }
        assert(r[i as int].take(j as int) =~= r[i as int]);
        i = i + 1;
    }
    assert(r.take(i as int) =~= r);
    let max_finalized = max_finalized(finalized);
    let lagging = lagging_nodes(finalized, max_finalized);
    let verdict = if conflicts.len() > 0 {
        Verdict::SafetyViolation
    } else if lagging.len() > 0 {
        Verdict::Lagging
    } else if max_finalized > 0 {
        Verdict::Achieved
    } else {
        Verdict::NoBlocks
    };
    ConsensusCheck { conflicts, max_finalized, lagging, verdict }
}

/// Whether the reports of `s` come in ascending order of slot.
pub open spec fn slot_sorted(s: Seq<(u64, Seq<char>)>) -> bool {
    forall|i: int, j: int| 0 <= i < j < s.len() ==> s[i].0 <= s[j].0
}

/// `t` with `x` put after every report whose slot is not above that of `x`,
/// counted from the end.
pub open spec fn insert_by_slot(t: Seq<(u64, Seq<char>)>, x: (u64, Seq<char>)) -> Seq<(u64, Seq<char>)>
    decreases t.len(),
{
    if t.len() == 0 || t.last().0 <= x.0 {
        t.push(x)
    } else {
        insert_by_slot(t.drop_last(), x).push(t.last())
    }
}

/// `s` in ascending order of slot, reports with one slot in the order of `s`.
pub open spec fn stable_sort_by_slot(s: Seq<(u64, Seq<char>)>) -> Seq<(u64, Seq<char>)>
    decreases s.len(),
{
    if s.len() == 0 {
        s
    } else {
        insert_by_slot(stable_sort_by_slot(s.drop_last()), s.last())
    }
}

/// `s` with each run of equal neighbours cut to its first element.
pub open spec fn dedup_adjacent(s: Seq<(u64, Seq<char>)>) -> Seq<(u64, Seq<char>)>
    decreases s.len(),
{
    if s.len() <= 1 {
        s
    } else if s.last() == s[s.len() - 2] {
        dedup_adjacent(s.drop_last())
    } else {
        dedup_adjacent(s.drop_last()).push(s.last())
    }
}

/// What a node lists at its end: its finalized blocks sorted by slot, without
/// repeated neighbours, and without slot 0.
pub open spec fn listing_of(s: Seq<(u64, Seq<char>)>) -> Seq<(u64, Seq<char>)> {
    dedup_adjacent(stable_sort_by_slot(s)).filter(|e: (u64, Seq<char>)| e.0 > 0)
}

proof fn lemma_insert_at(t: Seq<(u64, Seq<char>)>, x: (u64, Seq<char>), p: int)
    requires
        0 <= p <= t.len(),
        forall|k: int| p <= k < t.len() ==> t[k].0 > x.0,
        p == 0 || t[p - 1].0 <= x.0,
    ensures
        insert_by_slot(t, x) == t.insert(p, x),
    decreases t.len(),
{
    if t.len() == p {
        assert(t.push(x) =~= t.insert(p, x));
    } else {
        lemma_insert_at(t.drop_last(), x, p);
        assert(t.drop_last().insert(p, x).push(t.last()) =~= t.insert(p, x));
    }
}

proof fn lemma_insert_keeps_order(t: Seq<(u64, Seq<char>)>, x: (u64, Seq<char>))
    requires
        slot_sorted(t),
    ensures
        slot_sorted(insert_by_slot(t, x)),
        insert_by_slot(t, x).to_multiset() == t.to_multiset().insert(x),
    decreases t.len(),
{
    broadcast use vstd::seq_lib::group_to_multiset_ensures;

    if t.len() == 0 || t.last().0 <= x.0 {
    } else {
        let d = t.drop_last();
        lemma_insert_keeps_order(d, x);
        assert(t =~= d.push(t.last()));
        let r = insert_by_slot(d, x);
        assert forall|k: int| 0 <= k < r.len() implies r[k].0 <= t.last().0 by {
            assert(r.to_multiset().count(r[k]) > 0);
            assert(d.to_multiset().insert(x).count(r[k]) > 0);
            if r[k] != x {
                assert(d.contains(r[k]));
                let w = choose|w: int| 0 <= w < d.len() && d[w] == r[k];
                assert(t[w] == d[w]);
            }
        }
    }
}

proof fn lemma_sort_facts(s: Seq<(u64, Seq<char>)>)
    ensures
        slot_sorted(stable_sort_by_slot(s)),
        stable_sort_by_slot(s).to_multiset() == s.to_multiset(),
    decreases s.len(),
{
    broadcast use vstd::seq_lib::group_to_multiset_ensures;

    if s.len() > 0 {
        lemma_sort_facts(s.drop_last());
        lemma_insert_keeps_order(stable_sort_by_slot(s.drop_last()), s.last());
        assert(s =~= s.drop_last().push(s.last()));
    }
}

/// The reports in ascending order of slot; reports of one slot keep their order.
pub fn sort_by_slot(blocks: &Vec<(u64, Vec<char>)>) -> (out: Vec<(u64, Vec<char>)>)
    ensures
        node_view(out@) == stable_sort_by_slot(node_view(blocks@)),
        slot_sorted(node_view(out@)),
        node_view(out@).to_multiset() == node_view(blocks@).to_multiset(),
{
    let ghost v = node_view(blocks@);
    let mut out: Vec<(u64, Vec<char>)> = Vec::new();
    let mut i: usize = 0;
    while i < blocks.len()
        invariant
            i <= blocks@.len(),
            v == node_view(blocks@),
            node_view(out@) == stable_sort_by_slot(v.take(i as int)),
        decreases blocks@.len() - i,
    {
        let ghost t = node_view(out@);
        let slot = blocks[i].0;
        let ghost x = (slot, blocks@[i as int].1@);
        assert(v.take(i + 1).drop_last() =~= v.take(i as int));
        assert(v.take(i + 1).last() == x);
        let mut p = out.len();
        while p > 0 && out[p - 1].0 > slot
            invariant
                p <= out@.len(),
                t == node_view(out@),
                forall|k: int| p <= k < t.len() ==> t[k].0 > x.0,
                x.0 == slot,
            decreases p,
        {
            assert(t[p - 1].0 == out@[p - 1].0);
            p = p - 1;
        }
        proof {
            lemma_insert_at(t, x, p as int);
        }
        out.insert(p, (slot, copy_all(&blocks[i].1)));
        assert(node_view(out@) =~= t.insert(p as int, x));
        i = i + 1;
    }
    assert(v.take(i as int) =~= v);
    proof {
        lemma_sort_facts(v);
    }
    out
}

fn same_entry(a: &(u64, Vec<char>), b: &(u64, Vec<char>)) -> (r: bool)
    ensures
        r == (entry_view(*a) == entry_view(*b)),
{
    a.0 == b.0 && same_chars(&a.1, &b.1)
}

/// What a node lists at its end, as `listing_of` says: its finalized blocks
/// sorted by slot, repeated neighbours dropped, slot 0 left out.
pub fn finalized_listing(blocks: &Vec<(u64, Vec<char>)>) -> (out: Vec<(u64, Vec<char>)>)
    ensures
        node_view(out@) == listing_of(node_view(blocks@)),
{
    let sorted = sort_by_slot(blocks);
    let ghost s = node_view(sorted@);
    let ghost keep = |e: (u64, Seq<char>)| e.0 > 0;
    let mut out: Vec<(u64, Vec<char>)> = Vec::new();
    let mut i: usize = 0;
    while i < sorted.len()
        invariant
            i <= sorted@.len(),
            s == node_view(sorted@),
            s == stable_sort_by_slot(node_view(blocks@)),
            keep == (|e: (u64, Seq<char>)| e.0 > 0),
            node_view(out@) == dedup_adjacent(s.take(i as int)).filter(keep),
        decreases sorted@.len() - i,
    {
        let ghost before = dedup_adjacent(s.take(i as int));
        let ghost cur = s.take(i + 1);
        assert(cur.drop_last() =~= s.take(i as int));
        assert(cur.last() == s[i as int]);
        let repeated = i > 0 && same_entry(&sorted[i], &sorted[i - 1]);
        if i > 0 {
            assert(cur[cur.len() - 2] == s[i - 1]);
        }
        if !repeated {
            assert(dedup_adjacent(cur) == before.push(s[i as int]));
            proof {
                reveal(Seq::filter);
                assert(before.push(s[i as int]).drop_last() =~= before);
            }
            if sorted[i].0 > 0 {
                out.push((sorted[i].0, copy_all(&sorted[i].1)));
                assert(node_view(out@) =~= dedup_adjacent(cur).filter(keep));
            }
        }
        i = i + 1;
    }
    assert(s.take(i as int) =~= s);
    out
}

proof fn lemma_decimal_value_monotone(s: Seq<char>, m: nat)
    requires
        m <= s.len(),
        forall|j: int| 0 <= j < s.len() ==> is_digit(#[trigger] s[j]),
    ensures
        decimal_value(s.take(m as int)) <= decimal_value(s),
    decreases s.len() - m,
{
    if m < s.len() {
        lemma_decimal_value_monotone(s, m + 1);
        assert(s.take((m + 1) as int).drop_last() =~= s.take(m as int));
        assert(decimal_value(s.take((m + 1) as int)) == decimal_value(s.take(m as int)) * 10 + (s[m as int] as int
            - '0' as int));
        lemma_decimal_nonneg(s.take(m as int));
    } else {
        assert(s.take(m as int) =~= s);
    }
}

proof fn lemma_decimal_nonneg(s: Seq<char>)
    requires
        forall|j: int| 0 <= j < s.len() ==> is_digit(#[trigger] s[j]),
    ensures
        decimal_value(s) >= 0,
    decreases s.len(),
{
    if s.len() > 0 {
        assert(is_digit(s[s.len() - 1]));
        lemma_decimal_nonneg(s.drop_last());
    }
}

} // verus!
