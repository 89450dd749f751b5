//! The metadata block that the terminal frame carries: `key: value` lines,
//! each closed by LF or CRLF.

use vstd::prelude::*;
use vstd::slice::{slice_subrange, slice_to_vec};
use crate::frame::append_bytes;

verus! {

pub const LF: u8 = 10;

pub const CR: u8 = 13;

pub const COLON: u8 = 58;

pub const SPACE: u8 = 32;

/// One pair of a metadata block, as bytes.
pub type EntryView = (Seq<u8>, Seq<u8>);

/// Whether `c` is ASCII whitespace: space, tab, LF, form feed or CR.
pub open spec fn is_space(c: u8) -> bool {
    c == 32 || c == 9 || c == 10 || c == 12 || c == 13
}

/// `c` in lower case, where it is an ASCII capital; else `c`.
pub open spec fn lower(c: u8) -> u8 {
    if 65 <= c <= 90 {
        (c + 32) as u8
    } else {
        c
    }
}

/// `s` with every ASCII capital in lower case.
pub open spec fn lower_seq(s: Seq<u8>) -> Seq<u8> {
    Seq::new(s.len(), |i: int| lower(s[i]))
}

/// The place of the first `b` in `s`, or the length of `s` where it holds none.
pub open spec fn find(s: Seq<u8>, b: u8) -> nat
    decreases s.len(),
{
    if s.len() == 0 || s[0] == b {
        0
    } else {
        1 + find(s.skip(1), b)
    }
}

/// `s` without the whitespace it starts with.
pub open spec fn trim_start(s: Seq<u8>) -> Seq<u8>
    decreases s.len(),
{
    if s.len() > 0 && is_space(s[0]) {
        trim_start(s.skip(1))
    } else {
        s
    }
}

/// `s` without the whitespace it ends with.
pub open spec fn trim_end(s: Seq<u8>) -> Seq<u8>
    decreases s.len(),
{
    if s.len() > 0 && is_space(s.last()) {
        trim_end(s.drop_last())
    } else {
        s
    }
}

/// `s` without the whitespace around it.
pub open spec fn trim(s: Seq<u8>) -> Seq<u8> {
    trim_end(trim_start(s))
}

/// A line without the CR that closes it, where there is one.
pub open spec fn strip_cr(line: Seq<u8>) -> Seq<u8> {
    if line.len() > 0 && line.last() == CR {
        line.drop_last()
    } else {
        line
    }
}

/// What reading a block comes to.
pub ghost enum BlockView {
    /// The block is empty or ends in the middle of a line.
    Incomplete,
    /// Every line is a pair; they stand in the order of the lines.
    Parsed(Seq<EntryView>),
    /// The line that starts at `offset` has no colon.
    Malformed { offset: int },
}

/// `r`, read behind the pairs `es` and `shift` bytes.
pub open spec fn behind(es: Seq<EntryView>, shift: int, r: BlockView) -> BlockView {
    match r {
        BlockView::Incomplete => BlockView::Incomplete,
        BlockView::Parsed(t) => BlockView::Parsed(es + t),
        BlockView::Malformed { offset } => BlockView::Malformed { offset: shift + offset },
    }
}

/// The pair that a line with a colon holds: the key in lower case, and the
/// value without the whitespace around it.
pub open spec fn entry_of(line: Seq<u8>) -> EntryView {
    let c = find(line, COLON) as int;
    (lower_seq(line.take(c)), trim(line.skip(c + 1)))
}

/// The lines of `s` read in order, where `s` may be empty. The first line
/// without a colon makes the block malformed; bytes behind the last line
/// terminator make it incomplete.
pub open spec fn parse_lines(s: Seq<u8>) -> BlockView
    decreases s.len(),
{
    if s.len() == 0 {
        BlockView::Parsed(Seq::empty())
    } else {
        let n = find(s, LF) as int;
        if n >= s.len() {
            BlockView::Incomplete
        } else {
            let line = strip_cr(s.take(n));
            if find(line, COLON) >= line.len() {
                BlockView::Malformed { offset: 0 }
            } else {
                behind(seq![entry_of(line)], n + 1, parse_lines(s.skip(n + 1)))
            }
        }
    }
}

/// What reading the block `s` comes to. An empty block is incomplete.
pub open spec fn parse_block(s: Seq<u8>) -> BlockView {
    if s.len() == 0 {
        BlockView::Incomplete
    } else {
        parse_lines(s)
    }
}

/// The line written for one pair: the key, a colon, a space, the value, CRLF.
pub open spec fn entry_bytes(e: EntryView) -> Seq<u8> {
    e.0 + seq![COLON, SPACE] + e.1 + seq![CR, LF]
}

/// The block written for the pairs `es`.
pub open spec fn block_bytes(es: Seq<EntryView>) -> Seq<u8>
    decreases es.len(),
{
    if es.len() == 0 {
        Seq::empty()
    } else {
        entry_bytes(es[0]) + block_bytes(es.skip(1))
    }
}

/// Whether a pair is read back as it was written: the key holds no colon,
/// no LF and no capital; the value holds no LF and no whitespace around it.
pub open spec fn entry_clean(e: EntryView) -> bool {
    &&& forall|i: int| 0 <= i < e.0.len() ==> e.0[i] != COLON && e.0[i] != LF && lower(e.0[i]) == e.0[i]
    &&& forall|i: int| 0 <= i < e.1.len() ==> e.1[i] != LF
    &&& e.1.len() > 0 ==> !is_space(e.1[0]) && !is_space(e.1.last())
}

/// The value that a block gives for `key`: that of the last pair with this
/// key, so that a later line replaces an earlier one.
pub open spec fn lookup(es: Seq<EntryView>, key: Seq<u8>) -> Option<Seq<u8>>
    decreases es.len(),
{
    if es.len() == 0 {
        None
    } else if es.last().0 == key {
        Some(es.last().1)
    } else {
        lookup(es.drop_last(), key)
    }
}

/// The pairs of a sequence of entries, as bytes.
pub open spec fn entry_views(entries: Seq<(Vec<u8>, Vec<u8>)>) -> Seq<EntryView> {
    Seq::new(entries.len(), |i: int| (entries[i].0@, entries[i].1@))
}

/// `find` gives the place `i` where no `b` stands before `i` and one stands
/// at `i`, or `s` ends there.
pub proof fn lemma_find(s: Seq<u8>, b: u8, i: int)
    requires
        0 <= i <= s.len(),
        forall|j: int| 0 <= j < i ==> s[j] != b,
        i == s.len() || s[i] == b,
    ensures
        find(s, b) == i,
    decreases i,
{
    if i > 0 {
        lemma_find(s.skip(1), b, i - 1);
    }
}

/// `find` stays inside `s`, and what it finds is the first `b`.
pub proof fn lemma_find_range(s: Seq<u8>, b: u8)
    ensures
        find(s, b) <= s.len(),
        find(s, b) < s.len() ==> s[find(s, b) as int] == b,
        forall|j: int| 0 <= j < find(s, b) ==> s[j] != b,
    decreases s.len(),
{
    if s.len() > 0 && s[0] != b {
        lemma_find_range(s.skip(1), b);
        assert forall|j: int| 0 <= j < find(s, b) implies s[j] != b by {
            if j > 0 {
                assert(s.skip(1)[j - 1] == s[j]);
            }
        }
    }
}

/// Trimming the front drops exactly the `k` whitespace bytes that `s` starts with.
pub proof fn lemma_trim_start(s: Seq<u8>, k: int)
    requires
        0 <= k <= s.len(),
        forall|j: int| 0 <= j < k ==> is_space(s[j]),
        k == s.len() || !is_space(s[k]),
    ensures
        trim_start(s) == s.skip(k),
    decreases k,
{
    if k > 0 {
        lemma_trim_start(s.skip(1), k - 1);
        assert(s.skip(1).skip(k - 1) == s.skip(k));
    } else {
        assert(s.skip(0) == s);
    }
}

/// Trimming the end keeps exactly the first `k` bytes, where whitespace
/// alone stands behind them.
pub proof fn lemma_trim_end(s: Seq<u8>, k: int)
    requires
        0 <= k <= s.len(),
        forall|j: int| k <= j < s.len() ==> is_space(s[j]),
        k == 0 || !is_space(s[k - 1]),
    ensures
        trim_end(s) == s.take(k),
    decreases s.len() - k,
{
    if k < s.len() {
        lemma_trim_end(s.drop_last(), k);
        assert(s.drop_last().take(k) == s.take(k));
    } else {
        assert(s.take(k) == s);
    }
}

/// Reading behind pairs composes.
pub proof fn lemma_behind_twice(es: Seq<EntryView>, shift: int, e: EntryView, n: int, r: BlockView)
    ensures
        behind(es, shift, behind(seq![e], n, r)) == behind(es.push(e), shift + n, r),
{
    match r {
        BlockView::Parsed(t) => {
            assert(es + (seq![e] + t) == es.push(e) + t);
        },
        _ => {},
    }
}

/// A clean pair, written as a line in front of `rest`, is the first pair
/// read back.
pub proof fn lemma_entry_round_trip(e: EntryView, rest: Seq<u8>)
    requires
        entry_clean(e),
    ensures
        parse_lines(entry_bytes(e) + rest) == behind(
            seq![e],
            entry_bytes(e).len() as int,
            parse_lines(rest),
        ),
{
    let content = e.0 + seq![COLON, SPACE] + e.1;
    let s = entry_bytes(e) + rest;
    let n: int = content.len() as int + 1;
    let k: int = e.0.len() as int;
    assert(s[n] == LF);
    assert(s[n - 1] == CR);
    assert forall|j: int| 0 <= j < n implies s[j] != LF by {
        if j < e.0.len() {
            assert(s[j] == e.0[j]);
        } else if j >= e.0.len() + 2 && j < n - 1 {
            assert(s[j] == e.1[j - e.0.len() - 2]);
        }
    }
    lemma_find(s, LF, n);
    assert(s.take(n).drop_last() == content);
    let line = strip_cr(s.take(n));
    assert(line == content);
    assert forall|j: int| 0 <= j < e.0.len() implies line[j] != COLON by {
        assert(line[j] == e.0[j]);
    }
    lemma_find(line, COLON, k);
    assert(line.take(k) == e.0);
    assert(lower_seq(e.0) == e.0);
    let after = line.skip(k + 1);
    assert(after == seq![SPACE] + e.1);
    lemma_trim_start(after, 1);
    assert(after.skip(1) == e.1);
    lemma_trim_end(e.1, e.1.len() as int);
    assert(e.1.take(e.1.len() as int) == e.1);
    assert(entry_of(line) == e);
    assert(s.skip(n + 1) == rest);
}

/// A block written from clean pairs reads back as these pairs, in order.
pub proof fn lemma_block_round_trip(es: Seq<EntryView>)
    requires
        forall|i: int| 0 <= i < es.len() ==> entry_clean(#[trigger] es[i]),
    ensures
        parse_lines(block_bytes(es)) == BlockView::Parsed(es),
        es.len() > 0 ==> block_bytes(es).len() > 0 && parse_block(block_bytes(es))
            == BlockView::Parsed(es),
    decreases es.len(),
{
    if es.len() > 0 {
        let rest = es.skip(1);
        assert forall|i: int| 0 <= i < rest.len() implies entry_clean(#[trigger] rest[i]) by {
            assert(rest[i] == es[i + 1]);
        }
        lemma_block_round_trip(rest);
        lemma_entry_round_trip(es[0], block_bytes(rest));
        assert(seq![es[0]] + rest == es);
    } else {
        assert(es == Seq::<EntryView>::empty());
    }
}

/// Reading can be taken up again: whatever part of a well-formed block has
/// arrived, the parser never calls it malformed. It finds it incomplete, or
/// made of whole lines.
pub proof fn lemma_prefix_is_not_malformed(s: Seq<u8>, k: int)
    requires
        0 <= k <= s.len(),
        parse_lines(s) is Parsed,
    ensures
        !(parse_lines(s.take(k)) is Malformed),
        !(parse_block(s.take(k)) is Malformed),
    decreases s.len(),
{
    let p = s.take(k);
    if k > 0 {
        let n = find(s, LF) as int;
        lemma_find_range(s, LF);
        if k <= n {
            lemma_find(p, LF, k);
        } else {
            lemma_find(p, LF, n);
            assert(p.take(n) == s.take(n));
            assert(p.skip(n + 1) == s.skip(n + 1).take(k - n - 1));
            lemma_prefix_is_not_malformed(s.skip(n + 1), k - n - 1);
        }
    }
}

/// A metadata block: pairs of a key and a value, in the order of the lines
/// they were read from. Looked up by key, a later pair replaces an earlier
/// one with the same key.
#[derive(Debug)]
pub struct Metadata {
    entries: Vec<(Vec<u8>, Vec<u8>)>,
}

impl View for Metadata {
    type V = Seq<EntryView>;

    closed spec fn view(&self) -> Seq<EntryView> {
        entry_views(self.entries@)
    }
}

/// Whether two byte strings are equal.
pub fn bytes_eq(a: &[u8], b: &[u8]) -> (same: bool)
    ensures
        same == (a@ == b@),
{
    if a.len() != b.len() {
        return false;
    }
    let mut i: usize = 0;
    while i < a.len()
        invariant
            i <= a.len(),
            a.len() == b.len(),
            forall|j: int| 0 <= j < i ==> a@[j] == b@[j],
        decreases a.len() - i,
    {
        if a[i] != b[i] {
            return false;
        }
        i = i + 1;
    }
    assert(a@ =~= b@);
    true
}

impl Metadata {
    /// The empty block.
    pub fn new() -> (md: Self)
        ensures
            md@ == Seq::<EntryView>::empty(),
    {
        let md = Metadata { entries: Vec::new() };
        assert(md@ =~= Seq::<EntryView>::empty());
        md
    }

    /// Adds a pair behind the others.
    pub fn push(&mut self, key: Vec<u8>, value: Vec<u8>)
        ensures
            final(self)@ == old(self)@.push((key@, value@)),
    {
        self.entries.push((key, value));
        assert(self@ =~= old(self)@.push((key@, value@)));
    }

    /// The number of pairs.
    pub fn len(&self) -> (n: usize)
        ensures
            n == self@.len(),
    {
        self.entries.len()
    }

    /// Whether the block holds no pair.
    pub fn is_empty(&self) -> (empty: bool)
        ensures
            empty == (self@.len() == 0),
    {
        self.entries.len() == 0
    }

    /// The key of the pair at `index`.
    pub fn key_at(&self, index: usize) -> (key: &Vec<u8>)
        requires
            index < self@.len(),
        ensures
            key@ == self@[index as int].0,
    {
        &self.entries[index].0
    }

    /// The value of the pair at `index`.
    pub fn value_at(&self, index: usize) -> (value: &Vec<u8>)
        requires
            index < self@.len(),
        ensures
            value@ == self@[index as int].1,
    {
        &self.entries[index].1
    }

    /// The value for `key`, if the block has one.
    pub fn get(&self, key: &[u8]) -> (value: Option<&Vec<u8>>)
        ensures
            match value {
                Some(v) => lookup(self@, key@) == Some(v@),
                None => lookup(self@, key@) is None,
            },
    {
        let mut i: usize = self.entries.len();
        assert(self@.take(i as int) == self@);
        while i > 0
            invariant
                i <= self.entries.len(),
                lookup(self@, key@) == lookup(self@.take(i as int), key@),
            decreases i,
        {
            let ghost upto = self@.take(i as int);
            i = i - 1;
            assert(upto.last() == self@[i as int]);
            assert(upto.drop_last() == self@.take(i as int));
            if bytes_eq(self.entries[i].0.as_slice(), key) {
                return Some(&self.entries[i].1);
            }
        }
        None
    }

    /// Writes the block: one line for each pair, in order.
    pub fn encode(&self) -> (block: Vec<u8>)
        ensures
            block@ == block_bytes(self@),
    {
        let mut block: Vec<u8> = Vec::new();
        let mut i: usize = 0;
        assert(self@.skip(0) == self@);
        while i < self.entries.len()
            invariant
                i <= self.entries.len(),
                block_bytes(self@) == block@ + block_bytes(self@.skip(i as int)),
            decreases self.entries.len() - i,
        {
            let ghost before = block@;
            let ghost e = self@[i as int];
            append_bytes(&mut block, self.entries[i].0.as_slice());
            block.push(COLON);
            block.push(SPACE);
            append_bytes(&mut block, self.entries[i].1.as_slice());
            block.push(CR);
            block.push(LF);
            proof {
                assert(block@ == before + entry_bytes(e));
                assert(self@.skip(i as int)[0] == e);
                assert(self@.skip(i as int).skip(1) == self@.skip(i + 1));
            }
            i = i + 1;
        }
        block
    }
}

/// What [`try_parse`] found.
#[derive(Debug)]
pub enum TrailerParse {
    /// The buffer is empty or ends in the middle of a line: call again with
    /// more bytes appended.
    Incomplete,
    /// The block, and the number of bytes it was read from.
    Parsed(Metadata, usize),
    /// The line that starts at `offset` has no colon.
    Malformed { offset: usize },
}

impl TrailerParse {
    /// The outcome as a mathematical value.
    pub open spec fn outcome(&self) -> BlockView {
        match *self {
            TrailerParse::Incomplete => BlockView::Incomplete,
            TrailerParse::Parsed(md, _) => BlockView::Parsed(md@),
            TrailerParse::Malformed { offset } => BlockView::Malformed { offset: offset as int },
        }
    }
}

/// The place of the first `b` in `s[from..]`, or the length of `s`.
fn find_byte(s: &[u8], from: usize, to: usize, b: u8) -> (at: usize)
    requires
        from <= to <= s.len(),
    ensures
        from <= at <= to,
        at - from == find(s@.subrange(from as int, to as int), b),
{
    let mut i: usize = from;
    while i < to && s[i] != b
        invariant
            from <= i <= to <= s.len(),
            forall|j: int| from <= j < i ==> s@[j] != b,
        decreases to - i,
    {
        i = i + 1;
    }
    proof {
        lemma_find(s@.subrange(from as int, to as int), b, i - from);
    }
    i
}

/// Whether `c` is ASCII whitespace.
fn is_space_byte(c: u8) -> (space: bool)
    ensures
        space == is_space(c),
{
    c == 32 || c == 9 || c == 10 || c == 12 || c == 13
}

/// `s[from..to]` without the whitespace around it.
fn trimmed(s: &[u8], from: usize, to: usize) -> (out: Vec<u8>)
    requires
        from <= to <= s.len(),
    ensures
        out@ == trim(s@.subrange(from as int, to as int)),
{
    let ghost whole = s@.subrange(from as int, to as int);
    let mut a: usize = from;
    while a < to && is_space_byte(s[a])
        invariant
            from <= a <= to <= s.len(),
            forall|j: int| from <= j < a ==> is_space(s@[j]),
        decreases to - a,
    {
        a = a + 1;
    }
    let mut e: usize = to;
    while e > a && is_space_byte(s[e - 1])
        invariant
            a <= e <= to <= s.len(),
            forall|j: int| e <= j < to ==> is_space(s@[j]),
        decreases e,
    {
        e = e - 1;
    }
    proof {
        lemma_trim_start(whole, a - from);
        let front = whole.skip(a - from);
        lemma_trim_end(front, e - a);
        assert(front.take(e - a) == s@.subrange(a as int, e as int));
    }
    slice_to_vec(slice_subrange(s, a, e))
}

/// `s[from..to]` with every ASCII capital in lower case.
fn lowered(s: &[u8], from: usize, to: usize) -> (out: Vec<u8>)
    requires
        from <= to <= s.len(),
    ensures
        out@ == lower_seq(s@.subrange(from as int, to as int)),
{
    let mut out: Vec<u8> = Vec::new();
    let mut i: usize = from;
    while i < to
        invariant
            from <= i <= to <= s.len(),
            out@.len() == i - from,
            forall|j: int| 0 <= j < i - from ==> out@[j] == lower(s@[from + j]),
        decreases to - i,
    {
        let c: u8 = s[i];
        out.push(if 65 <= c && c <= 90 { c + 32 } else { c });
        i = i + 1;
    }
    assert(out@ =~= lower_seq(s@.subrange(from as int, to as int)));
    out
}

/// Reads a metadata block. Each line is split at its first colon; the key
/// is put in lower case and the value loses the whitespace around it. A
/// line without a colon makes the block malformed. An empty buffer, or one
/// that does not end with a line terminator, is incomplete.
pub fn try_parse(buffer: &[u8]) -> (out: TrailerParse)
    ensures
        out.outcome() == parse_block(buffer@),
        out matches TrailerParse::Parsed(_, consumed) ==> consumed == buffer@.len(),
{
    let len: usize = buffer.len();
    if len == 0 {
        return TrailerParse::Incomplete;
    }
    let mut md = Metadata::new();
    let mut pos: usize = 0;
    assert(buffer@.skip(0) == buffer@);
    assert(behind(md@, 0, parse_lines(buffer@)) == parse_lines(buffer@)) by {
        match parse_lines(buffer@) {
            BlockView::Parsed(t) => {
                assert(md@ + t == t);
            },
            _ => {},
        }
    }
    while pos < len
        invariant
            pos <= len == buffer.len(),
            parse_lines(buffer@) == behind(md@, pos as int, parse_lines(buffer@.skip(pos as int))),
        decreases len - pos,
    {
        let ghost rest = buffer@.skip(pos as int);
        assert(rest == buffer@.subrange(pos as int, len as int));
        let nl: usize = find_byte(buffer, pos, len, LF);
        if nl >= len {
            return TrailerParse::Incomplete;
        }
        let end: usize = if nl > pos && buffer[nl - 1] == CR { nl - 1 } else { nl };
        let ghost line = strip_cr(rest.take(nl - pos));
        assert(line == buffer@.subrange(pos as int, end as int));
        let colon: usize = find_byte(buffer, pos, end, COLON);
        if colon >= end {
            return TrailerParse::Malformed { offset: pos };
        }
        let key = lowered(buffer, pos, colon);
        let value = trimmed(buffer, colon + 1, end);
        proof {
            assert(line.take(colon - pos) == buffer@.subrange(pos as int, colon as int));
            assert(line.skip(colon - pos + 1) == buffer@.subrange(colon + 1, end as int));
            assert(rest.skip(nl - pos + 1) == buffer@.skip(nl + 1));
            lemma_behind_twice(
                md@,
                pos as int,
                entry_of(line),
                nl - pos + 1,
                parse_lines(buffer@.skip(nl + 1)),
            );
        }
        md.push(key, value);
        pos = nl + 1;
    }
    assert(md@ + Seq::<EntryView>::empty() == md@);
    TrailerParse::Parsed(md, len)
}

} // verus!
