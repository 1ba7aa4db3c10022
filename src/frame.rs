//! The bus's framed reply protocol: an array of elements, each a bulk string
//! (`$<len>\r\n<bytes>\r\n`) or an integer (`:<digits>\r\n`), announced as
//! `*<count>\r\n`. A pub/sub delivery is an array of three bulk strings whose
//! first is `message`.

use vstd::prelude::*;
use vstd::utf8::{decode_utf8, valid_utf8};

verus! {

/// The longest bulk string, and the largest count, that a frame may announce.
pub const MAX_BULK_LEN: u64 = 536870912;

pub open spec fn is_digit_byte(c: u8) -> bool {
    48 <= c <= 57
}

/// How reading a decimal count, ended by `\r\n`, goes.
pub enum NumRead {
    Incomplete,
    Malformed,
    Done(nat, int),
}

/// Reads the digits from `i` on, `acc` being the value of the `nd` digits
/// before them.
pub open spec fn num_at(b: Seq<u8>, i: int, acc: nat, nd: nat) -> NumRead
    decreases b.len() - i,
{
    if i < 0 || i >= b.len() {
        NumRead::Incomplete
    } else if is_digit_byte(b[i]) {
        let a = acc * 10 + (b[i] - 48) as nat;
        if a > MAX_BULK_LEN {
            NumRead::Malformed
        } else {
            num_at(b, i + 1, a, nd + 1)
        }
    } else if b[i] == 13 && nd > 0 {
        if i + 1 >= b.len() {
            NumRead::Incomplete
        } else if b[i + 1] == 10 {
            NumRead::Done(acc, i + 2)
        } else {
            NumRead::Malformed
        }
    } else {
        NumRead::Malformed
    }
}

/// How reading one array element goes.
pub enum ElemRead {
    Incomplete,
    Malformed,
    /// A bulk string: where its bytes start, how many, where the next element starts.
    Bulk(int, nat, int),
    /// An integer, and where the next element starts.
    Int(int),
}

pub open spec fn elem_at(b: Seq<u8>, i: int) -> ElemRead {
    if i < 0 || i >= b.len() {
        ElemRead::Incomplete
    } else if b[i] == 36 {
        match num_at(b, i + 1, 0, 0) {
            NumRead::Done(l, j) => if j + l + 2 > b.len() {
                ElemRead::Incomplete
            } else if b[j + l] == 13 && b[j + l + 1] == 10 {
                ElemRead::Bulk(j, l, j + l + 2)
            } else {
                ElemRead::Malformed
            },
            NumRead::Incomplete => ElemRead::Incomplete,
            NumRead::Malformed => ElemRead::Malformed,
        }
    } else if b[i] == 58 {
        match num_at(b, i + 1, 0, 0) {
            NumRead::Done(_, j) => ElemRead::Int(j),
            NumRead::Incomplete => ElemRead::Incomplete,
            NumRead::Malformed => ElemRead::Malformed,
        }
    } else {
        ElemRead::Malformed
    }
}

/// Reads `k` elements from `i` on; `Done(0, e)` gives where they end.
pub open spec fn items_end(b: Seq<u8>, i: int, k: nat) -> NumRead
    decreases k,
{
    if k == 0 {
        NumRead::Done(0, i)
    } else {
        match elem_at(b, i) {
            ElemRead::Bulk(_, _, nx) => items_end(b, nx, (k - 1) as nat),
            ElemRead::Int(nx) => items_end(b, nx, (k - 1) as nat),
            ElemRead::Incomplete => NumRead::Incomplete,
            ElemRead::Malformed => NumRead::Malformed,
        }
    }
}

/// The bytes of `message`.
pub open spec fn message_word() -> Seq<u8> {
    seq![109u8, 101, 115, 115, 97, 103, 101]
}

/// What the frame at the start of a buffer is.
pub enum FrameShape {
    Incomplete,
    Malformed,
    /// A frame that is no delivery, and where it ends.
    NonMsg(int),
    /// A delivery: the channel's and the payload's byte ranges, and where it ends.
    Msg(int, nat, int, nat, int),
}

pub open spec fn frame_shape(b: Seq<u8>) -> FrameShape {
    if b.len() == 0 {
        FrameShape::Incomplete
    } else if b[0] != 42 {
        FrameShape::Malformed
    } else {
        match num_at(b, 1, 0, 0) {
            NumRead::Incomplete => FrameShape::Incomplete,
            NumRead::Malformed => FrameShape::Malformed,
            NumRead::Done(n, j) => match items_end(b, j, n) {
                NumRead::Incomplete => FrameShape::Incomplete,
                NumRead::Malformed => FrameShape::Malformed,
                NumRead::Done(_, e) => {
                    if n == 3 && elem_at(b, j) is Bulk {
                        let (s0, l0, n0) = (
                            elem_at(b, j)->Bulk_0,
                            elem_at(b, j)->Bulk_1,
                            elem_at(b, j)->Bulk_2,
                        );
                        if elem_at(b, n0) is Bulk && elem_at(b, elem_at(b, n0)->Bulk_2) is Bulk
                            && b.subrange(s0, s0 + l0) == message_word() {
                            let e1 = elem_at(b, n0);
                            let e2 = elem_at(b, e1->Bulk_2);
                            FrameShape::Msg(e1->Bulk_0, e1->Bulk_1, e2->Bulk_0, e2->Bulk_1, e)
                        } else {
                            FrameShape::NonMsg(e)
                        }
                    } else {
                        FrameShape::NonMsg(e)
                    }
                },
            },
        }
    }
}

/// A delivery read from the bus.
pub struct RedisMsg {
    /// The channel it came on.
    pub timeline_txt: String,
    /// Its payload, passed on untouched.
    pub event_txt: String,
    /// How many bytes of the buffer the frame took.
    pub consumed: usize,
}

/// What the frame at the start of a buffer gives.
pub enum RedisParseOutput {
    Msg(RedisMsg),
    /// A frame that is no delivery (a command's acknowledgement), and its length.
    NonMsg(usize),
    /// The buffer ends inside the frame.
    Incomplete,
    /// The bytes are no frame.
    Malformed,
}

/// What `try_parse` gives on a buffer: a delivery whose channel or payload is
/// not UTF-8 is passed over like any other frame that is no delivery.
pub open spec fn parse_outcome(b: Seq<u8>, r: RedisParseOutput) -> bool {
    match frame_shape(b) {
        FrameShape::Incomplete => r is Incomplete,
        FrameShape::Malformed => r is Malformed,
        FrameShape::NonMsg(e) => r == RedisParseOutput::NonMsg(e as usize),
        FrameShape::Msg(s1, l1, s2, l2, e) => {
            let ch = b.subrange(s1, s1 + l1);
            let pl = b.subrange(s2, s2 + l2);
            if valid_utf8(ch) && valid_utf8(pl) {
                &&& r is Msg
                &&& r->Msg_0.timeline_txt@ == decode_utf8(ch)
                &&& r->Msg_0.event_txt@ == decode_utf8(pl)
                &&& r->Msg_0.consumed == e
            } else {
                r == RedisParseOutput::NonMsg(e as usize)
            }
        },
    }
}

/// How far a frame reaches into the buffer, when the buffer holds it whole.
pub open spec fn frame_end(b: Seq<u8>) -> Option<int> {
    match frame_shape(b) {
        FrameShape::NonMsg(e) => Some(e),
        FrameShape::Msg(_, _, _, _, e) => Some(e),
        _ => None,
    }
}

/// Relies on `std::str::from_utf8`: the text of `b[start..end]` exactly when
/// those bytes are UTF-8.
#[verifier::external_body]
fn utf8_text(b: &[u8], start: usize, end: usize) -> (r: Option<String>)
    requires
        start <= end <= b@.len(),
    ensures
        r.is_some() == valid_utf8(b@.subrange(start as int, end as int)),
        r.is_some() ==> r.unwrap()@ == decode_utf8(b@.subrange(start as int, end as int)),
{
    std::str::from_utf8(&b[start..end]).ok().map(|s| s.to_string())
}

enum NumOut {
    Incomplete,
    Malformed,
    Done(u64, usize),
}

/// Reads a count starting at `i`.
fn read_num(b: &[u8], i: usize) -> (r: NumOut)
    ensures
        match num_at(b@, i as int, 0, 0) {
            NumRead::Incomplete => r is Incomplete,
            NumRead::Malformed => r is Malformed,
            NumRead::Done(v, j) => r == NumOut::Done(v as u64, j as usize) && i < j <= b@.len() && v <= MAX_BULK_LEN,
        },
{
    let n = b.len();
    let mut pos = i;
    let mut acc: u64 = 0;
    let mut nd: usize = 0;
    while pos < n
        invariant
            n == b@.len(),
            i <= pos,
            nd > 0 ==> pos > i,
            acc <= MAX_BULK_LEN,
            nd <= pos - i,
            num_at(b@, i as int, 0, 0) == num_at(b@, pos as int, acc as nat, nd as nat),
        decreases n - pos,
    {
        let c = b[pos];
        if 48 <= c && c <= 57 {
            let a: u64 = acc * 10 + (c - 48) as u64;
            if a > MAX_BULK_LEN {
                return NumOut::Malformed;
            }
            acc = a;
            nd = nd + 1;
            pos = pos + 1;
        } else if c == 13 && nd > 0 {
            if pos + 1 >= n {
                return NumOut::Incomplete;
            } else if b[pos + 1] == 10 {
                return NumOut::Done(acc, pos + 2);
            } else {
                return NumOut::Malformed;
            }
        } else {
            return NumOut::Malformed;
        }
    }
    NumOut::Incomplete
}

enum ElemOut {
    Incomplete,
    Malformed,
    Bulk(usize, usize, usize),
    Int(usize),
}

/// Reads the element starting at `i`.
fn read_elem(b: &[u8], i: usize) -> (r: ElemOut)
    ensures
        match elem_at(b@, i as int) {
            ElemRead::Incomplete => r is Incomplete,
            ElemRead::Malformed => r is Malformed,
            ElemRead::Bulk(s, l, nx) => r == ElemOut::Bulk(s as usize, l as usize, nx as usize)
                && i < nx <= b@.len() && s + l <= b@.len() && i < s,
            ElemRead::Int(nx) => r == ElemOut::Int(nx as usize) && i < nx <= b@.len(),
        },
{
    let n = b.len();
    if i >= n {
        return ElemOut::Incomplete;
    }
    let c = b[i];
    if c == 36 {
        match read_num(b, i + 1) {
            NumOut::Done(l, j) => {
                let l = l as usize;
                if n - j < 2 || l > n - j - 2 {
                    ElemOut::Incomplete
                } else if b[j + l] == 13 && b[j + l + 1] == 10 {
                    ElemOut::Bulk(j, l, j + l + 2)
                } else {
                    ElemOut::Malformed
                }
            },
            NumOut::Incomplete => ElemOut::Incomplete,
            NumOut::Malformed => ElemOut::Malformed,
        }
    } else if c == 58 {
        match read_num(b, i + 1) {
            NumOut::Done(_, j) => ElemOut::Int(j),
            NumOut::Incomplete => ElemOut::Incomplete,
            NumOut::Malformed => ElemOut::Malformed,
        }
    } else {
        ElemOut::Malformed
    }
}

/// Reads `k` elements from `i` on.
fn read_items(b: &[u8], i: usize, k: u64) -> (r: NumOut)
    requires
        i <= b@.len(),
    ensures
        match items_end(b@, i as int, k as nat) {
            NumRead::Incomplete => r is Incomplete,
            NumRead::Malformed => r is Malformed,
            NumRead::Done(_, e) => r == NumOut::Done(0, e as usize) && i <= e <= b@.len(),
        },
{
    let mut pos = i;
    let mut left = k;
    let n = b.len();
    while left > 0
        invariant
            n == b@.len(),
            i <= pos <= b@.len(),
            items_end(b@, i as int, k as nat) == items_end(b@, pos as int, left as nat),
        decreases left,
    {
        let ghost e = elem_at(b@, pos as int);
        match read_elem(b, pos) {
            ElemOut::Bulk(_, _, nx) => {
                proof {
                    assert(e is Bulk);
                    assert(items_end(b@, pos as int, left as nat) == items_end(
                        b@,
                        nx as int,
                        (left - 1) as nat,
                    ));
                }
                pos = nx;
            },
            ElemOut::Int(nx) => {
                proof {
                    assert(e is Int);
                    assert(items_end(b@, pos as int, left as nat) == items_end(
                        b@,
                        nx as int,
                        (left - 1) as nat,
                    ));
                }
                pos = nx;
            },
            ElemOut::Incomplete => {
                return NumOut::Incomplete;
            },
            ElemOut::Malformed => {
                return NumOut::Malformed;
            },
        }
        left = left - 1;
    }
    NumOut::Done(0, pos)
}

/// Whether `b[s..s + l]` is the word `message`.
fn is_message_word(b: &[u8], s: usize, l: usize) -> (r: bool)
    requires
        s + l <= b@.len(),
    ensures
        r == (b@.subrange(s as int, s + l) == message_word()),
{
    if l != 7 {
        proof {
            assert(message_word().len() == 7);
        }
        return false;
    }
    let r = b[s] == 109 && b[s + 1] == 101 && b[s + 2] == 115 && b[s + 3] == 115 && b[s + 4] == 97
        && b[s + 5] == 103 && b[s + 6] == 101;
    proof {
        let w = b@.subrange(s as int, s + l);
        if r {
            assert(w =~= message_word());
        } else {
            if w == message_word() {
                assert(w[0] == 109u8 && w[1] == 101u8 && w[2] == 115u8 && w[3] == 115u8);
                assert(w[4] == 97u8 && w[5] == 103u8 && w[6] == 101u8);
            }
        }
    }
    r
}

/// Reads the frame at the start of `b`. Only the frame's headers and the
/// ends of its bulk strings are looked at until it is known to be whole.
pub fn try_parse(b: &[u8]) -> (r: RedisParseOutput)
    ensures
        parse_outcome(b@, r),
        frame_end(b@) is Some ==> 0 < frame_end(b@)->0 <= b@.len(),
{
    let n = b.len();
    if n == 0 {
        return RedisParseOutput::Incomplete;
    }
    if b[0] != 42 {
        return RedisParseOutput::Malformed;
    }
    let (count, j) = match read_num(b, 1) {
        NumOut::Done(v, j) => (v, j),
        NumOut::Incomplete => {
            return RedisParseOutput::Incomplete;
        },
        NumOut::Malformed => {
            return RedisParseOutput::Malformed;
        },
    };
    let end = match read_items(b, j, count) {
        NumOut::Done(_, e) => e,
        NumOut::Incomplete => {
            return RedisParseOutput::Incomplete;
        },
        NumOut::Malformed => {
            return RedisParseOutput::Malformed;
        },
    };
    proof {
        assert(j > 1);
        if count > 0 {
            assert(end > 0) by {
                lemma_items_advance(b@, j as int, count as nat);
            }
        }
    }
    if count != 3 {
        return RedisParseOutput::NonMsg(end);
    }
    let (s0, l0, n0) = match read_elem(b, j) {
        ElemOut::Bulk(s, l, nx) => (s, l, nx),
        _ => {
            return RedisParseOutput::NonMsg(end);
        },
    };
    let (s1, l1, n1) = match read_elem(b, n0) {
        ElemOut::Bulk(s, l, nx) => (s, l, nx),
        _ => {
            return RedisParseOutput::NonMsg(end);
        },
    };
    let (s2, l2) = match read_elem(b, n1) {
        ElemOut::Bulk(s, l, _) => (s, l),
        _ => {
            return RedisParseOutput::NonMsg(end);
        },
    };
    if !is_message_word(b, s0, l0) {
        return RedisParseOutput::NonMsg(end);
    }
    let ch = utf8_text(b, s1, s1 + l1);
    let pl = utf8_text(b, s2, s2 + l2);
    match (ch, pl) {
        (Some(c), Some(p)) => RedisParseOutput::Msg(
            RedisMsg { timeline_txt: c, event_txt: p, consumed: end },
        ),
        _ => RedisParseOutput::NonMsg(end),
    }
}

/// Reading elements only moves forward.
proof fn lemma_items_advance(b: Seq<u8>, i: int, k: nat)
    requires
        items_end(b, i, k) is Done,
        k > 0,
    ensures
        items_end(b, i, k)->Done_1 > i,
    decreases k,
{
    lemma_elem_advance(b, i);
    match elem_at(b, i) {
        ElemRead::Bulk(_, _, nx) => {
            if k > 1 {
                lemma_items_advance(b, nx, (k - 1) as nat);
            }
        },
        ElemRead::Int(nx) => {
            if k > 1 {
                lemma_items_advance(b, nx, (k - 1) as nat);
            }
        },
        _ => {},
    }
}

proof fn lemma_num_advance(b: Seq<u8>, i: int, acc: nat, nd: nat)
    requires
        num_at(b, i, acc, nd) is Done,
    ensures
        num_at(b, i, acc, nd)->Done_1 > i,
    decreases b.len() - i,
{
    if 0 <= i < b.len() && is_digit_byte(b[i]) && acc * 10 + (b[i] - 48) as nat <= MAX_BULK_LEN {
        lemma_num_advance(b, i + 1, acc * 10 + (b[i] - 48) as nat, nd + 1);
    }
}

proof fn lemma_elem_advance(b: Seq<u8>, i: int)
    ensures
        elem_at(b, i) is Bulk ==> elem_at(b, i)->Bulk_2 > i,
        elem_at(b, i) is Int ==> elem_at(b, i)->Int_0 > i,
{
    if 0 <= i < b.len() && num_at(b, i + 1, 0, 0) is Done {
        lemma_num_advance(b, i + 1, 0, 0);
    }
}

/// A count that the bytes so far decide stays decided when more bytes come.
pub proof fn lemma_num_ext(b: Seq<u8>, y: Seq<u8>, i: int, acc: nat, nd: nat)
    ensures
        !(num_at(b, i, acc, nd) is Incomplete) ==> num_at(b + y, i, acc, nd) == num_at(b, i, acc, nd),
        num_at(b, i, acc, nd) is Done ==> num_at(b, i, acc, nd)->Done_1 <= b.len(),
    decreases b.len() - i,
{
    let c = b + y;
    if 0 <= i < b.len() {
        assert(c[i] == b[i]);
        if i + 1 < b.len() {
            assert(c[i + 1] == b[i + 1]);
        }
        if is_digit_byte(b[i]) && acc * 10 + (b[i] - 48) as nat <= MAX_BULK_LEN {
            lemma_num_ext(b, y, i + 1, acc * 10 + (b[i] - 48) as nat, nd + 1);
        }
    }
}

/// An element that the bytes so far decide stays decided when more bytes come.
pub proof fn lemma_elem_ext(b: Seq<u8>, y: Seq<u8>, i: int)
    ensures
        !(elem_at(b, i) is Incomplete) ==> elem_at(b + y, i) == elem_at(b, i),
        elem_at(b, i) is Bulk ==> elem_at(b, i)->Bulk_2 <= b.len() && elem_at(b, i)->Bulk_0
            + elem_at(b, i)->Bulk_1 <= b.len() && elem_at(b, i)->Bulk_0 >= 0,
        elem_at(b, i) is Int ==> elem_at(b, i)->Int_0 <= b.len(),
{
    let c = b + y;
    if 0 <= i < b.len() {
        assert(c[i] == b[i]);
        lemma_num_ext(b, y, i + 1, 0, 0);
        match num_at(b, i + 1, 0, 0) {
            NumRead::Done(l, j) => {
                lemma_num_advance(b, i + 1, 0, 0);
                if j + l + 2 <= b.len() {
                    assert(c[j + l] == b[j + l]);
                    assert(c[j + l + 1] == b[j + l + 1]);
                }
            },
            _ => {},
        }
    }
}

/// Elements that the bytes so far decide stay decided when more bytes come.
pub proof fn lemma_items_ext(b: Seq<u8>, y: Seq<u8>, i: int, k: nat)
    requires
        0 <= i <= b.len(),
    ensures
        !(items_end(b, i, k) is Incomplete) ==> items_end(b + y, i, k) == items_end(b, i, k),
        items_end(b, i, k) is Done ==> items_end(b, i, k)->Done_1 <= b.len(),
    decreases k,
{
    if k > 0 {
        lemma_elem_ext(b, y, i);
        lemma_elem_advance(b, i);
        match elem_at(b, i) {
            ElemRead::Bulk(_, _, nx) => lemma_items_ext(b, y, nx, (k - 1) as nat),
            ElemRead::Int(nx) => lemma_items_ext(b, y, nx, (k - 1) as nat),
            _ => {},
        }
    }
}

/// A frame that the bytes so far decide stays decided when more bytes come,
/// and a whole frame ends inside the bytes.
pub proof fn lemma_frame_ext(b: Seq<u8>, y: Seq<u8>)
    ensures
        !(frame_shape(b) is Incomplete) ==> frame_shape(b + y) == frame_shape(b),
        frame_shape(b) is NonMsg ==> 0 < frame_shape(b)->NonMsg_0 <= b.len(),
        frame_shape(b) is Msg ==> ({
            let (s1, l1, s2, l2, e) = (
                frame_shape(b)->Msg_0,
                frame_shape(b)->Msg_1,
                frame_shape(b)->Msg_2,
                frame_shape(b)->Msg_3,
                frame_shape(b)->Msg_4,
            );
            &&& 0 < e <= b.len()
            &&& 0 <= s1 && s1 + l1 <= b.len()
            &&& 0 <= s2 && s2 + l2 <= b.len()
        }),
{
    let c = b + y;
    if b.len() > 0 {
        assert(c[0] == b[0]);
        lemma_num_ext(b, y, 1, 0, 0);
        match num_at(b, 1, 0, 0) {
            NumRead::Done(n, j) => {
                lemma_num_advance(b, 1, 0, 0);
                lemma_items_ext(b, y, j, n);
                if n > 0 && items_end(b, j, n) is Done {
                    lemma_items_advance(b, j, n);
                }
                if n == 3 && items_end(b, j, n) is Done {
                    lemma_elem_ext(b, y, j);
                    lemma_elem_advance(b, j);
                    if elem_at(b, j) is Bulk {
                        let n0 = elem_at(b, j)->Bulk_2;
                        let (s0, l0) = (elem_at(b, j)->Bulk_0, elem_at(b, j)->Bulk_1);
                        assert(c.subrange(s0, s0 + l0) =~= b.subrange(s0, s0 + l0));
                        lemma_elem_ext(b, y, n0);
                        lemma_elem_advance(b, n0);
                        assert(items_end(b, n0, 2) is Done);
                        if elem_at(b, n0) is Bulk {
                            let n1 = elem_at(b, n0)->Bulk_2;
                            assert(items_end(b, n1, 1) is Done);
                            lemma_elem_ext(b, y, n1);
                            lemma_elem_advance(b, n1);
                        }
                    }
                }
            },
            _ => {},
        }
    }
}

/// `r` is the length of the longest prefix of `b` that is UTF-8.
pub open spec fn is_utf8_cut(b: Seq<u8>, r: int) -> bool {
    &&& 0 <= r <= b.len()
    &&& valid_utf8(b.take(r))
    &&& forall|k: int| r < k <= b.len() ==> !valid_utf8(#[trigger] b.take(k))
}

/// The length of the longest prefix of `b` that is UTF-8.
pub open spec fn utf8_cut(b: Seq<u8>) -> int {
    choose|r: int| is_utf8_cut(b, r)
}

/// Relies on `std::str::from_utf8` and `Utf8Error::valid_up_to`: the whole
/// length when `b` is UTF-8, else the largest index up to which it is.
#[verifier::external_body]
pub(crate) fn valid_prefix_len(b: &[u8]) -> (r: usize)
    ensures
        is_utf8_cut(b@, r as int),
{
    match std::str::from_utf8(b) {
        Ok(_) => b.len(),
        Err(e) => e.valid_up_to(),
    }
}

/// The longest UTF-8 prefix has one length.
pub proof fn lemma_utf8_cut_unique(b: Seq<u8>, r: int)
    requires
        is_utf8_cut(b, r),
    ensures
        utf8_cut(b) == r,
{
    let c = utf8_cut(b);
    assert(is_utf8_cut(b, c));
    if c < r {
        assert(!valid_utf8(b.take(r)));
    } else if c > r {
        assert(!valid_utf8(b.take(c)));
    }
}

} // verus!
