//! Chunked transfer of an image over datagrams: the sender cuts the bytes
//! into chunks of at most 1024 bytes and sends each as a text line
//! `a:b:payload` (chunk number and chunk count, in one of two orders, then
//! the chunk in base64); the receiver collects the chunks in slots and hands
//! back the image once every slot is filled.

use vstd::prelude::*;
use crate::encoding::{base64_text, base64_bytes, payload_bytes, is_base64_char, image_to_base64, decode_payload};
use crate::text::{lemma_decimal, decimal, split_on, trim, parse_usize_spec, parse_usize, split_chars, trim_chars, chars_of, string_of, push_char, push_decimal, is_ws, is_digit, all_digits, digits_value, digit_char, unsigned_text};

verus! {

/// Largest number of image bytes in one chunk.
pub const MAX_CHUNK_SIZE: usize = 1024;

/// Which of the two numbers comes first in a chunk line.
#[derive(Clone, Copy, PartialEq, Eq, Structural, Debug)]
pub enum FieldOrder {
    /// `chunk_id:total_chunks:payload`
    IdFirst,
    /// `total_chunks:chunk_id:payload`
    TotalFirst,
}

/// Number of chunks for `len` bytes: `ceil(len / 1024)`.
pub open spec fn chunk_count(len: nat) -> nat {
    (len + 1023) / 1024
}

/// The `i`-th chunk of `data`.
pub open spec fn chunk_of(data: Seq<u8>, i: int) -> Seq<u8> {
    let end = if (i + 1) * 1024 <= data.len() { (i + 1) * 1024 } else { data.len() as int };
    data.subrange(i * 1024, end)
}

/// The text line that carries chunk `id` of `total` with the given bytes.
pub open spec fn chunk_line(order: FieldOrder, id: nat, total: nat, payload: Seq<u8>) -> Seq<char> {
    let (a, b) = match order {
        FieldOrder::IdFirst => (id, total),
        FieldOrder::TotalFirst => (total, id),
    };
    decimal(a) + seq![':'] + decimal(b) + seq![':'] + base64_text(payload)
}

/// Number of chunks for a byte count.
pub fn total_chunks(len: usize) -> (r: usize)
    ensures
        r == chunk_count(len as nat),
{
    len / 1024 + if len % 1024 == 0 { 0 } else { 1 }
}

/// The `chunk_id`-th chunk of `data`.
pub fn chunk(data: &[u8], chunk_id: usize) -> (r: Vec<u8>)
    requires
        chunk_id < chunk_count(data@.len()),
    ensures
        r@ == chunk_of(data@, chunk_id as int),
{
    assert(chunk_id * 1024 < data@.len()) by (nonlinear_arith)
        requires
            chunk_id < (data@.len() + 1023) / 1024,
    ;
    assert(data.len() / 1024 > chunk_id ==> (chunk_id + 1) * 1024 <= data@.len()) by (nonlinear_arith);
    assert(!(data.len() / 1024 > chunk_id) ==> !((chunk_id + 1) * 1024 <= data@.len())) by (nonlinear_arith);
    let start = chunk_id * 1024;
    let end = if data.len() / 1024 > chunk_id { (chunk_id + 1) * 1024 } else { data.len() };
    let mut r: Vec<u8> = Vec::new();
    let mut i = start;
    while i < end
        invariant
            start <= i <= end,
            end <= data@.len(),
            start == chunk_id * 1024,
            end == (if (chunk_id + 1) * 1024 <= data@.len() { (chunk_id + 1) * 1024 } else { data@.len() as int }),
            r@ == data@.subrange(start as int, i as int),
        decreases end - i,
    {
        r.push(data[i]);
        assert(data@.subrange(start as int, i as int).push(data@[i as int]) =~= data@.subrange(start as int, i + 1));
        i = i + 1;
    }
    r
}


// ---------------------------------------------------------------------------
// Receiving.

/// What a received chunk line holds.
pub enum ChunkLine {
    /// Not a chunk line; the receiver reports it and waits for the next.
    Invalid,
    /// A line with too few fields, which ends the transfer.
    Fatal,
    /// Chunk `id` of `total`, with its base64 payload.
    Chunk { id: nat, total: nat, payload: Seq<char> },
}

/// How a receiver reads a line: trimmed, split on `:`; a `strict` receiver
/// requires exactly three fields, the others index the fields they need.
pub open spec fn read_chunk_line(order: FieldOrder, strict: bool, msg: Seq<char>) -> ChunkLine {
    let parts = split_on(trim(msg), ':');
    let (ti, ii) = match order {
        FieldOrder::IdFirst => (1int, 0int),
        FieldOrder::TotalFirst => (0int, 1int),
    };
    if strict && parts.len() != 3 {
        ChunkLine::Invalid
    } else if parts.len() < 2 {
        ChunkLine::Fatal
    } else {
        match (parse_usize_spec(parts[ti]), parse_usize_spec(parts[ii])) {
            (Some(t), Some(i)) => if parts.len() < 3 {
                ChunkLine::Fatal
            } else {
                ChunkLine::Chunk { id: i as nat, total: t as nat, payload: parts[2] }
            },
            _ => ChunkLine::Invalid,
        }
    }
}

/// The state of a receiver: the announced chunk count (0 before the first
/// chunk) and one slot per chunk.
pub struct Assembly {
    pub total: nat,
    pub slots: Seq<Option<Seq<u8>>>,
}

/// What a receiver does with a line.
pub enum ChunkOutcome {
    Invalid,
    Fatal,
    Pending,
    Complete(Seq<u8>),
}

pub open spec fn all_present(slots: Seq<Option<Seq<u8>>>) -> bool {
    forall|i: int| 0 <= i < slots.len() ==> (#[trigger] slots[i]) is Some
}

/// The bytes of the filled slots, in slot order.
pub open spec fn joined(slots: Seq<Option<Seq<u8>>>) -> Seq<u8>
    decreases slots.len(),
{
    if slots.len() == 0 {
        Seq::<u8>::empty()
    } else {
        joined(slots.drop_last()) + match slots.last() {
            Some(b) => b,
            None => Seq::<u8>::empty(),
        }
    }
}

/// One step of a receiver: the first chunk fixes the count and opens that
/// many empty slots; a chunk with a number below the count fills its slot;
/// the image is complete once every slot is filled.
pub open spec fn assemble_step(st: Assembly, line: ChunkLine) -> (Assembly, ChunkOutcome) {
    match line {
        ChunkLine::Invalid => (st, ChunkOutcome::Invalid),
        ChunkLine::Fatal => (st, ChunkOutcome::Fatal),
        ChunkLine::Chunk { id, total, payload } => {
            let t = if st.total == 0 { total } else { st.total };
            let base = if st.total == 0 {
                Seq::new(total, |i: int| None::<Seq<u8>>)
            } else {
                st.slots
            };
            let slots = if id < t { base.update(id as int, Some(payload_bytes(payload))) } else { base };
            let next = Assembly { total: t, slots };
            if all_present(slots) {
                (next, ChunkOutcome::Complete(joined(slots)))
            } else {
                (next, ChunkOutcome::Pending)
            }
        },
    }
}

/// A receiver fed the given lines in turn: its state and what it did with
/// the last line.
pub open spec fn replay(order: FieldOrder, strict: bool, st: Assembly, msgs: Seq<Seq<char>>) -> (Assembly, ChunkOutcome)
    decreases msgs.len(),
{
    if msgs.len() == 0 {
        (st, ChunkOutcome::Pending)
    } else {
        let prev = replay(order, strict, st, msgs.drop_last());
        assemble_step(prev.0, read_chunk_line(order, strict, msgs.last()))
    }
}

/// A receiver before its first chunk.
pub open spec fn fresh_assembly() -> Assembly {
    Assembly { total: 0, slots: Seq::empty() }
}

/// What a receiver reports for one line.
pub enum ChunkEvent {
    /// Not a chunk line.
    Invalid,
    /// A line with too few fields, which ends the transfer.
    Fatal,
    /// A chunk was taken (or ignored for a number out of range); more to come.
    Pending,
    /// Every chunk is in: the image bytes.
    Complete(Vec<u8>),
}

impl ChunkEvent {
    pub open spec fn view(&self) -> ChunkOutcome {
        match self {
            ChunkEvent::Invalid => ChunkOutcome::Invalid,
            ChunkEvent::Fatal => ChunkOutcome::Fatal,
            ChunkEvent::Pending => ChunkOutcome::Pending,
            ChunkEvent::Complete(v) => ChunkOutcome::Complete(v@),
        }
    }
}

pub open spec fn slot_view(o: Option<Vec<u8>>) -> Option<Seq<u8>> {
    match o {
        Some(v) => Some(v@),
        None => None,
    }
}

/// Receives one image as chunk lines.
pub struct ChunkAssembler {
    order: FieldOrder,
    strict: bool,
    total: usize,
    slots: Vec<Option<Vec<u8>>>,
}

impl ChunkAssembler {
    pub closed spec fn view(&self) -> Assembly {
        Assembly { total: self.total as nat, slots: self.slots@.map_values(|o: Option<Vec<u8>>| slot_view(o)) }
    }

    pub closed spec fn order(&self) -> FieldOrder {
        self.order
    }

    pub closed spec fn strict(&self) -> bool {
        self.strict
    }

    pub closed spec fn wf(&self) -> bool {
        self.slots@.len() == self.total
    }

    /// A receiver that has seen no chunk yet.
    pub fn new(order: FieldOrder, strict: bool) -> (r: ChunkAssembler)
        ensures
            r.wf(),
            r@ == fresh_assembly(),
            r.order() == order,
            r.strict() == strict,
    {
        let r = ChunkAssembler { order, strict, total: 0, slots: Vec::new() };
        assert(r@.slots =~= Seq::<Option<Seq<u8>>>::empty());
        r
    }

    /// Takes one received line.
    pub fn accept(&mut self, msg: &str) -> (r: ChunkEvent)
        requires
            old(self).wf(),
        ensures
            final(self).wf(),
            final(self).order() == old(self).order(),
            final(self).strict() == old(self).strict(),
            (final(self)@, r@) == assemble_step(old(self)@, read_chunk_line(old(self).order(), old(self).strict(), msg@)),
    {
        let all = chars_of(msg);
        let line = trim_chars(all.as_slice());
        let parts = split_chars(line.as_slice(), ':');
        proof {
            lemma_split_on_nonempty_at(line@);
        }
        if self.strict && parts.len() != 3 {
            return ChunkEvent::Invalid;
        }
        if parts.len() < 2 {
            return ChunkEvent::Fatal;
        }
        let (ti, ii): (usize, usize) = match self.order {
            FieldOrder::IdFirst => (1, 0),
            FieldOrder::TotalFirst => (0, 1),
        };
        let t = parse_usize(parts[ti].as_slice());
        let i = parse_usize(parts[ii].as_slice());
        match (t, i) {
            (Some(total), Some(id)) => {
                if parts.len() < 3 {
                    return ChunkEvent::Fatal;
                }
                let payload = string_of(parts[2].as_slice());
                let data = decode_payload(payload.as_str());
                let ghost old_view = self@;
                if self.total == 0 {
                    self.total = total;
                    let mut fresh: Vec<Option<Vec<u8>>> = Vec::new();
                    for k in 0..total
                        invariant
                            fresh@.len() == k,
                            forall|j: int| 0 <= j < k ==> (#[trigger] fresh@[j]) is None,
                    {
                        fresh.push(None);
                    }
                    self.slots = fresh;
                    assert(self@.slots =~= Seq::new(total as nat, |i: int| None::<Seq<u8>>));
                }
                let ghost base = self@.slots;
                if id < self.total {
                    self.slots.set(id, Some(data));
                    assert(self@.slots =~= base.update(id as int, Some(payload_bytes(payload@))));
                }
                if self.complete() {
                    ChunkEvent::Complete(self.joined_bytes())
                } else {
                    ChunkEvent::Pending
                }
            },
            _ => ChunkEvent::Invalid,
        }
    }

    fn complete(&self) -> (r: bool)
        ensures
            r == all_present(self@.slots),
    {
        let n = self.slots.len();
        for k in 0..n
            invariant
                n == self.slots@.len(),
                forall|j: int| 0 <= j < k ==> (#[trigger] self@.slots[j]) is Some,
        {
            if self.slots[k].is_none() {
                assert(self@.slots[k as int] is None);
                return false;
            }
        }
        true
    }

    fn joined_bytes(&self) -> (r: Vec<u8>)
        ensures
            r@ == joined(self@.slots),
    {
        let n = self.slots.len();
        let mut out: Vec<u8> = Vec::new();
        for k in 0..n
            invariant
                n == self.slots@.len(),
                out@ == joined(self@.slots.take(k as int)),
        {
            assert(self@.slots.take(k + 1).drop_last() =~= self@.slots.take(k as int));
            match &self.slots[k] {
                Some(b) => {
                    let mut m: usize = 0;
                    while m < b.len()
                        invariant
                            m <= b@.len(),
                            out@ == joined(self@.slots.take(k as int)) + b@.take(m as int),
                        decreases b@.len() - m,
                    {
                        out.push(b[m]);
                        assert(b@.take(m as int).push(b@[m as int]) =~= b@.take(m + 1));
                        assert((joined(self@.slots.take(k as int)) + b@.take(m as int)).push(b@[m as int]) =~= joined(self@.slots.take(k as int)) + b@.take(m + 1));
                        m = m + 1;
                    }
                    assert(b@.take(b@.len() as int) =~= b@);
                },
                None => {
                    assert(joined(self@.slots.take(k as int)) + Seq::<u8>::empty() =~= joined(self@.slots.take(k as int)));
                },
            }
        }
        assert(self@.slots.take(n as int) =~= self@.slots);
        out
    }
}

proof fn lemma_split_on_nonempty_at(s: Seq<char>)
    ensures
        split_on(s, ':').len() >= 1,
{
    crate::text::lemma_split_on_nonempty(s, ':');
}


// ---------------------------------------------------------------------------
// Sending, and what a receiver makes of what was sent.

/// The lines that carry `data`, one per chunk, in chunk order.
pub open spec fn chunk_lines_of(order: FieldOrder, data: Seq<u8>) -> Seq<Seq<char>> {
    let n = chunk_count(data.len());
    Seq::new(n, |i: int| chunk_line(order, i as nat, n, chunk_of(data, i)))
}

/// A receiver (strict or not) fed the lines of `data` in order waits after
/// every line but the last and hands back exactly `data` after the last.
pub open spec fn delivers(order: FieldOrder, data: Seq<u8>) -> bool {
    let msgs = chunk_lines_of(order, data);
    forall|strict: bool|
        {
            &&& (#[trigger] replay(order, strict, fresh_assembly(), msgs)).1 == ChunkOutcome::Complete(data)
            &&& forall|k: int| 1 <= k < msgs.len() ==> (#[trigger] replay(order, strict, fresh_assembly(), msgs.take(k))).1 == ChunkOutcome::Pending
        }
}

/// What base64 guarantees of the text of one chunk.
pub open spec fn base64_sound(c: Seq<u8>) -> bool {
    &&& base64_bytes(base64_text(c)) == Some(c)
    &&& forall|i: int| 0 <= i < base64_text(c).len() ==> is_base64_char(#[trigger] base64_text(c)[i])
}

/// The line for one chunk.
pub fn chunk_line_text(order: FieldOrder, id: usize, total: usize, payload: &[u8]) -> (r: String)
    ensures
        r@ == chunk_line(order, id as nat, total as nat, payload@),
        base64_sound(payload@),
{
    let (a, b) = match order {
        FieldOrder::IdFirst => (id, total),
        FieldOrder::TotalFirst => (total, id),
    };
    let mut r = String::new();
    push_decimal(&mut r, a as u64);
    push_char(&mut r, ':');
    push_decimal(&mut r, b as u64);
    push_char(&mut r, ':');
    let text = image_to_base64(payload);
    let tc = chars_of(text.as_str());
    crate::text::append_chars(&mut r, tc.as_slice());
    assert(r@ =~= chunk_line(order, id as nat, total as nat, payload@));
    r
}

/// The lines that carry `data`, ready to send, one per chunk.
pub fn chunk_lines(order: FieldOrder, data: &[u8]) -> (r: Vec<String>)
    ensures
        r@.map_values(|s: String| s@) == chunk_lines_of(order, data@),
        data@.len() > 0 ==> delivers(order, data@),
{
    let n = total_chunks(data.len());
    let mut r: Vec<String> = Vec::new();
    for i in 0..n
        invariant
            n == chunk_count(data@.len()),
            r@.len() == i,
            forall|j: int| 0 <= j < i ==> (#[trigger] r@[j])@ == chunk_line(order, j as nat, n as nat, chunk_of(data@, j)),
            forall|j: int| 0 <= j < i ==> base64_sound(#[trigger] chunk_of(data@, j)),
    {
        let c = chunk(data, i);
        let line = chunk_line_text(order, i, n, c.as_slice());
        r.push(line);
    }
    assert(r@.map_values(|s: String| s@) =~= chunk_lines_of(order, data@));
    proof {
        if data@.len() > 0 {
            lemma_delivers(order, data@);
        }
    }
    r
}

proof fn lemma_no_sep_split(x: Seq<char>, d: char)
    requires
        forall|i: int| 0 <= i < x.len() ==> x[i] != d,
    ensures
        split_on(x, d) == seq![x],
    decreases x.len(),
{
    if x.len() > 0 {
        lemma_no_sep_split(x.drop_last(), d);
        assert(x.drop_last().push(x.last()) =~= x);
        assert(seq![x.drop_last()].update(0, x.drop_last().push(x.last())) =~= seq![x]);
    } else {
        assert(x =~= Seq::<char>::empty());
    }
}

proof fn lemma_split_append(p: Seq<char>, t: Seq<char>, d: char)
    requires
        forall|i: int| 0 <= i < t.len() ==> t[i] != d,
    ensures
        split_on(p + t, d) == split_on(p, d).update(split_on(p, d).len() - 1, split_on(p, d).last() + t),
    decreases t.len(),
{
    crate::text::lemma_split_on_nonempty(p, d);
    if t.len() == 0 {
        assert(p + t =~= p);
        assert(split_on(p, d).last() + t =~= split_on(p, d).last());
        assert(split_on(p, d).update(split_on(p, d).len() - 1, split_on(p, d).last()) =~= split_on(p, d));
    } else {
        lemma_split_append(p, t.drop_last(), d);
        assert((p + t).drop_last() =~= p + t.drop_last());
        assert((p + t).last() == t.last());
        let f = split_on(p, d);
        assert((f.last() + t.drop_last()).push(t.last()) =~= f.last() + t);
        assert(f.update(f.len() - 1, f.last() + t.drop_last()).update(f.len() - 1, (f.last() + t.drop_last()).push(t.last()))
            =~= f.update(f.len() - 1, f.last() + t));
    }
}

proof fn lemma_split_sep(p: Seq<char>, d: char)
    ensures
        split_on(p.push(d), d) == split_on(p, d).push(Seq::<char>::empty()),
{
    assert(p.push(d).drop_last() =~= p);
}

proof fn lemma_split_three(a: Seq<char>, b: Seq<char>, t: Seq<char>, d: char)
    requires
        forall|i: int| 0 <= i < a.len() ==> a[i] != d,
        forall|i: int| 0 <= i < b.len() ==> b[i] != d,
        forall|i: int| 0 <= i < t.len() ==> t[i] != d,
    ensures
        split_on(a + seq![d] + b + seq![d] + t, d) == seq![a, b, t],
{
    lemma_no_sep_split(a, d);
    assert(a + seq![d] =~= a.push(d));
    lemma_split_sep(a, d);
    lemma_split_append(a + seq![d], b, d);
    assert(seq![a, Seq::<char>::empty()].update(1, Seq::<char>::empty() + b) =~= seq![a, b]);
    assert(a + seq![d] + b + seq![d] =~= (a + seq![d] + b).push(d));
    lemma_split_sep(a + seq![d] + b, d);
    lemma_split_append(a + seq![d] + b + seq![d], t, d);
    assert(seq![a, b, Seq::<char>::empty()].update(2, Seq::<char>::empty() + t) =~= seq![a, b, t]);
}

proof fn lemma_parse_decimal(n: nat)
    requires
        n <= usize::MAX,
    ensures
        parse_usize_spec(decimal(n)) == Some(n as usize),
{
    lemma_decimal(n);
    assert(is_digit(decimal(n)[0]));
}

proof fn lemma_trim_plain(s: Seq<char>)
    requires
        s.len() > 0,
        !is_ws(s[0]),
        !is_ws(s.last()),
    ensures
        trim(s) == s,
{
    assert(s.subrange(0, s.len() as int) =~= s);
}

proof fn lemma_read_line(order: FieldOrder, strict: bool, id: nat, total: nat, c: Seq<u8>)
    requires
        id <= usize::MAX,
        total <= usize::MAX,
        base64_sound(c),
    ensures
        read_chunk_line(order, strict, chunk_line(order, id, total, c))
            == (ChunkLine::Chunk { id, total, payload: base64_text(c) }),
{
    let (a, b) = match order {
        FieldOrder::IdFirst => (id, total),
        FieldOrder::TotalFirst => (total, id),
    };
    let t = base64_text(c);
    let line = chunk_line(order, id, total, c);
    lemma_decimal(a);
    lemma_decimal(b);
    assert(line == decimal(a) + seq![':'] + decimal(b) + seq![':'] + t);
    assert(line[0] == decimal(a)[0]);
    assert(is_digit(decimal(a)[0]));
    if t.len() > 0 {
        assert(line.last() == t.last());
        assert(is_base64_char(t[t.len() - 1]));
    } else {
        assert(line.last() == ':');
    }
    lemma_trim_plain(line);
    assert forall|i: int| 0 <= i < decimal(a).len() implies decimal(a)[i] != ':' by {
        assert(is_digit(decimal(a)[i]));
    }
    assert forall|i: int| 0 <= i < decimal(b).len() implies decimal(b)[i] != ':' by {
        assert(is_digit(decimal(b)[i]));
    }
    assert forall|i: int| 0 <= i < t.len() implies t[i] != ':' by {
        assert(is_base64_char(t[i]));
    }
    lemma_split_three(decimal(a), decimal(b), t, ':');
    lemma_parse_decimal(a);
    lemma_parse_decimal(b);
}

proof fn lemma_joined_prefix(data: Seq<u8>, k: nat)
    requires
        k <= chunk_count(data.len()),
    ensures
        joined(Seq::new(k, |j: int| Some(chunk_of(data, j))))
            == data.take(if k * 1024 <= data.len() { (k * 1024) as int } else { data.len() as int }),
    decreases k,
{
    let s = Seq::new(k, |j: int| Some(chunk_of(data, j)));
    if k == 0 {
        assert(data.take(0) =~= Seq::<u8>::empty());
    } else {
        let k1 = (k - 1) as nat;
        lemma_joined_prefix(data, k1);
        assert(s.drop_last() =~= Seq::new(k1, |j: int| Some(chunk_of(data, j))));
        assert(k1 * 1024 < data.len()) by (nonlinear_arith)
            requires
                k1 + 1 <= (data.len() + 1023) / 1024,
        ;
        let end = if k * 1024 <= data.len() { (k * 1024) as int } else { data.len() as int };
        assert(data.take((k1 * 1024) as int) + data.subrange((k1 * 1024) as int, end) =~= data.take(end));
    }
}

proof fn lemma_delivers(order: FieldOrder, data: Seq<u8>)
    requires
        data.len() > 0,
        forall|j: int| 0 <= j < chunk_count(data.len()) ==> base64_sound(#[trigger] chunk_of(data, j)),
        chunk_count(data.len()) <= usize::MAX,
    ensures
        delivers(order, data),
{
    let msgs = chunk_lines_of(order, data);
    assert forall|strict: bool| {
        &&& (#[trigger] replay(order, strict, fresh_assembly(), msgs)).1 == ChunkOutcome::Complete(data)
        &&& forall|k: int| 1 <= k < msgs.len() ==> (#[trigger] replay(order, strict, fresh_assembly(), msgs.take(k))).1 == ChunkOutcome::Pending
    } by {
        let n = msgs.len();
        assert(n >= 1);
        assert forall|k: int| 1 <= k <= n implies #[trigger] replay(order, strict, fresh_assembly(), msgs.take(k)) == replay_expected(data, k as nat) by {
            lemma_replay_prefix(order, strict, data, k as nat);
        }
        assert(msgs.take(n as int) =~= msgs);
        lemma_joined_prefix(data, n);
        assert(n * 1024 >= data.len()) by (nonlinear_arith)
            requires
                n == (data.len() + 1023) / 1024,
        ;
        assert(data.take(data.len() as int) =~= data);
        assert(Seq::new(n, |j: int| if j < n { Some(chunk_of(data, j)) } else { None::<Seq<u8>> })
            =~= Seq::new(n, |j: int| Some(chunk_of(data, j))));
    }
}

/// The state and outcome after the first `k` lines of `data`.
spec fn replay_expected(data: Seq<u8>, k: nat) -> (Assembly, ChunkOutcome) {
    let n = chunk_count(data.len());
    let slots = Seq::new(n, |j: int| if j < k { Some(chunk_of(data, j)) } else { None::<Seq<u8>> });
    (Assembly { total: n, slots }, if k == n { ChunkOutcome::Complete(joined(slots)) } else { ChunkOutcome::Pending })
}

proof fn lemma_replay_prefix(order: FieldOrder, strict: bool, data: Seq<u8>, k: nat)
    requires
        data.len() > 0,
        1 <= k <= chunk_count(data.len()),
        forall|j: int| 0 <= j < chunk_count(data.len()) ==> base64_sound(#[trigger] chunk_of(data, j)),
        chunk_count(data.len()) <= usize::MAX,
    ensures
        replay(order, strict, fresh_assembly(), chunk_lines_of(order, data).take(k as int)) == replay_expected(data, k),
    decreases k,
{
    let msgs = chunk_lines_of(order, data);
    let n = chunk_count(data.len());
    let i = (k - 1) as nat;
    assert(msgs.take(k as int).drop_last() =~= msgs.take(i as int));
    assert(msgs.take(k as int).last() == chunk_line(order, i, n, chunk_of(data, i as int)));
    assert(base64_sound(chunk_of(data, i as int)));
    lemma_read_line(order, strict, i, n, chunk_of(data, i as int));
    let c = chunk_of(data, i as int);
    assert(payload_bytes(base64_text(c)) == c);
    let slots = Seq::new(n, |j: int| if j < k { Some(chunk_of(data, j)) } else { None::<Seq<u8>> });
    let line = ChunkLine::Chunk { id: i, total: n, payload: base64_text(c) };
    assert(read_chunk_line(order, strict, msgs.take(k as int).last()) == line);
    let pr = replay(order, strict, fresh_assembly(), msgs.take(i as int));
    assert(replay(order, strict, fresh_assembly(), msgs.take(k as int)) == assemble_step(pr.0, line));
    if k == 1 {
        assert(msgs.take(0) =~= Seq::<Seq<char>>::empty());
        assert(pr.0 == fresh_assembly());
        assert(Seq::new(n, |j: int| None::<Seq<u8>>).update(0, Some(c)) =~= slots);
        assert(assemble_step(pr.0, line).0 == Assembly { total: n, slots });
    } else {
        lemma_replay_prefix(order, strict, data, i);
        let prev = Seq::new(n, |j: int| if j < i { Some(chunk_of(data, j)) } else { None::<Seq<u8>> });
        assert(pr.0 == Assembly { total: n, slots: prev });
        assert(prev.update(i as int, Some(c)) =~= slots);
        assert(assemble_step(pr.0, line).0 == Assembly { total: n, slots });
    }
    if k == n {
        assert(all_present(slots));
    } else {
        assert(slots[k as int] is None);
        assert(!all_present(slots));
    }
}

} // verus!
