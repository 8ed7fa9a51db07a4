use vstd::prelude::*;

verus! {

pub const CR: u8 = 13;
pub const LF: u8 = 10;
pub const COLON: u8 = 58;
pub const SPACE: u8 = 32;
pub const TAB: u8 = 9;
pub const PLUS: u8 = 43;
pub const DIGIT0: u8 = 48;
pub const DIGIT9: u8 = 57;

/// Lowercases one ASCII byte; every other byte is unchanged.
pub open spec fn ascii_lower(b: u8) -> u8 {
    if 65 <= b && b <= 90 {
        (b + 32) as u8
    } else {
        b
    }
}

/// Executable counterpart of `ascii_lower`.
fn lower_byte(b: u8) -> (r: u8)
    ensures
        r == ascii_lower(b),
{
    if 65 <= b && b <= 90 {
        b + 32
    } else {
        b
    }
}

/// The four-byte header terminator CR LF CR LF begins at `i` in `s`.
pub open spec fn terminator_at(s: Seq<u8>, i: int) -> bool {
    &&& 0 <= i
    &&& i + 4 <= s.len()
    &&& s[i] == CR
    &&& s[i + 1] == LF
    &&& s[i + 2] == CR
    &&& s[i + 3] == LF
}

pub open spec fn has_terminator(s: Seq<u8>) -> bool {
    exists|i: int| terminator_at(s, i)
}

/// `h` is the header block of the byte stream `c`: the prefix of `c` that
/// ends with the first header terminator, terminator included.
pub open spec fn is_header_block_of(h: Seq<u8>, c: Seq<u8>) -> bool {
    &&& 4 <= h.len() <= c.len()
    &&& h == c.take(h.len() as int)
    &&& terminator_at(h, h.len() - 4)
    &&& forall|j: int| 0 <= j < h.len() - 4 ==> !terminator_at(h, j)
}

/// The first position at or after `i` where the header terminator begins.
pub open spec fn first_term_from(s: Seq<u8>, i: int) -> Option<int>
    decreases s.len() - i when 0 <= i <= s.len()
{
    if i + 4 > s.len() {
        None
    } else if terminator_at(s, i) {
        Some(i)
    } else {
        first_term_from(s, i + 1)
    }
}

pub proof fn lemma_first_term_charac(s: Seq<u8>, i: int)
    requires
        0 <= i <= s.len(),
    ensures
        match first_term_from(s, i) {
            Some(p) => i <= p && terminator_at(s, p) && (forall|j: int|
                i <= j < p ==> !terminator_at(s, j)),
            None => forall|j: int| j >= i ==> !terminator_at(s, j),
        },
    decreases s.len() - i,
{
    if i + 4 <= s.len() && !terminator_at(s, i) {
        lemma_first_term_charac(s, i + 1);
    }
}

/// The header block of `c`: its prefix through the first terminator, or
/// empty when no terminator ever arrives.
pub open spec fn response_header_of(c: Seq<u8>) -> Seq<u8> {
    match first_term_from(c, 0) {
        Some(p) => c.take(p + 4),
        None => Seq::empty(),
    }
}

/// The header block of a byte stream is the one prefix that ends at the
/// first terminator.
pub proof fn lemma_header_block_unique(h: Seq<u8>, c: Seq<u8>)
    requires
        is_header_block_of(h, c),
    ensures
        first_term_from(c, 0) == Some(h.len() - 4),
        response_header_of(c) == h,
{
    lemma_first_term_charac(c, 0);
    assert(forall|j: int| 0 <= j < h.len() ==> c[j] == h[j]);
    assert(terminator_at(c, h.len() - 4));
    match first_term_from(c, 0) {
        Option::None => {
            assert(false);
        },
        Option::Some(p) => {
            if p < h.len() - 4 {
                assert(terminator_at(c, p));
                assert(terminator_at(h, p));
                assert(false);
            }
            if h.len() - 4 < p {
                assert(!terminator_at(c, h.len() - 4));
                assert(false);
            }
            assert(response_header_of(c) =~= h);
        },
    }
}

/// Position of the first header terminator, if any.
pub fn find_terminator(buf: &Vec<u8>) -> (r: Option<usize>)
    ensures
        match r {
            Some(i) => terminator_at(buf@, i as int) && (forall|j: int|
                0 <= j < i ==> !terminator_at(buf@, j)),
            None => !has_terminator(buf@),
        },
{
    if buf.len() < 4 {
        return None;
    }
    let mut i: usize = 0;
    while i <= buf.len() - 4
        invariant
            buf.len() >= 4,
            i <= buf.len(),
            forall|j: int| 0 <= j < i ==> !terminator_at(buf@, j),
        decreases buf.len() - i,
    {
        if buf[i] == CR && buf[i + 1] == LF && buf[i + 2] == CR && buf[i + 3] == LF {
            return Some(i);
        }
        i = i + 1;
    }
    None
}

/// The lowercase bytes of the length-declaring header name, colon included.
pub open spec fn cl_key() -> Seq<u8> {
    seq![99u8, 111, 110, 116, 101, 110, 116, 45, 108, 101, 110, 103, 116, 104, 58]
}

/// Byte `k` of `cl_key`.
fn cl_key_byte(k: usize) -> (b: u8)
    requires
        k < 15,
    ensures
        b == cl_key()[k as int],
{
    let r: u8 = if k == 0 {
        99
    } else if k == 1 {
        111
    } else if k == 2 {
        110
    } else if k == 3 {
        116
    } else if k == 4 {
        101
    } else if k == 5 {
        110
    } else if k == 6 {
        116
    } else if k == 7 {
        45
    } else if k == 8 {
        108
    } else if k == 9 {
        101
    } else if k == 10 {
        110
    } else if k == 11 {
        103
    } else if k == 12 {
        116
    } else if k == 13 {
        104
    } else {
        58
    };
    r
}

/// `i` begins a header line in `s`.
pub open spec fn line_start(s: Seq<u8>, i: int) -> bool {
    i == 0 || s[i - 1] == LF
}

/// A length-declaring header name begins, case-insensitively, at `i`.
pub open spec fn cl_at(s: Seq<u8>, i: int) -> bool {
    &&& 0 <= i
    &&& i + 15 <= s.len()
    &&& line_start(s, i)
    &&& forall|k: int| 0 <= k < 15 ==> ascii_lower(s[i + k]) == cl_key()[k]
}

/// The first position at or after `i` where a length-declaring header begins.
pub open spec fn first_cl_from(s: Seq<u8>, i: int) -> Option<int>
    decreases s.len() - i when 0 <= i <= s.len()
{
    if i >= s.len() {
        None
    } else if cl_at(s, i) {
        Some(i)
    } else {
        first_cl_from(s, i + 1)
    }
}

pub proof fn lemma_first_cl_charac(s: Seq<u8>, i: int)
    requires
        0 <= i <= s.len(),
    ensures
        match first_cl_from(s, i) {
            Some(p) => i <= p < s.len() && cl_at(s, p) && (forall|j: int|
                i <= j < p ==> !cl_at(s, j)),
            None => forall|j: int| i <= j < s.len() ==> !cl_at(s, j),
        },
    decreases s.len() - i,
{
    if i < s.len() && !cl_at(s, i) {
        lemma_first_cl_charac(s, i + 1);
    }
}

/// The first position at or after `i` holding CR, LF or a colon; `s.len()`
/// when no such byte follows.
pub open spec fn val_end_from(s: Seq<u8>, i: int) -> int
    decreases s.len() - i when 0 <= i <= s.len()
{
    if i >= s.len() {
        i
    } else if s[i] == CR || s[i] == LF || s[i] == COLON {
        i
    } else {
        val_end_from(s, i + 1)
    }
}

pub proof fn lemma_val_end_charac(s: Seq<u8>, i: int)
    requires
        0 <= i <= s.len(),
    ensures
        ({
            let e = val_end_from(s, i);
            &&& i <= e <= s.len()
            &&& forall|j: int| i <= j < e ==> !(s[j] == CR || s[j] == LF || s[j] == COLON)
            &&& e < s.len() ==> (s[e] == CR || s[e] == LF || s[e] == COLON)
        }),
    decreases s.len() - i,
{
    if i < s.len() && !(s[i] == CR || s[i] == LF || s[i] == COLON) {
        lemma_val_end_charac(s, i + 1);
    }
}

pub open spec fn is_ws(b: u8) -> bool {
    b == SPACE || b == TAB
}

/// How many whitespace bytes `s` begins with.
pub open spec fn lead_ws(s: Seq<u8>) -> int
    decreases s.len(),
{
    if s.len() > 0 && is_ws(s[0]) {
        1 + lead_ws(s.drop_first())
    } else {
        0
    }
}

/// How many whitespace bytes `s` ends with.
pub open spec fn tail_ws(s: Seq<u8>) -> int
    decreases s.len(),
{
    if s.len() > 0 && is_ws(s.last()) {
        1 + tail_ws(s.drop_last())
    } else {
        0
    }
}

/// `s` without leading and trailing whitespace.
pub open spec fn trimmed(s: Seq<u8>) -> Seq<u8> {
    let a = lead_ws(s);
    let b = s.len() - tail_ws(s);
    if a <= b {
        s.subrange(a, b)
    } else {
        Seq::empty()
    }
}

pub proof fn lemma_lead_ws_charac(s: Seq<u8>)
    ensures
        0 <= lead_ws(s) <= s.len(),
        forall|i: int| 0 <= i < lead_ws(s) ==> is_ws(s[i]),
        lead_ws(s) < s.len() ==> !is_ws(s[lead_ws(s)]),
    decreases s.len(),
{
    if s.len() > 0 && is_ws(s[0]) {
        lemma_lead_ws_charac(s.drop_first());
        assert forall|i: int| 0 <= i < lead_ws(s) implies is_ws(s[i]) by {
            if i >= 1 {
                assert(is_ws(s.drop_first()[i - 1]));
                assert(s.drop_first()[i - 1] == s[i]);
            }
        }
        if lead_ws(s) < s.len() {
            assert(s.drop_first()[lead_ws(s) - 1] == s[lead_ws(s)]);
        }
    }
}

pub proof fn lemma_tail_ws_charac(s: Seq<u8>)
    ensures
        0 <= tail_ws(s) <= s.len(),
        forall|i: int| s.len() - tail_ws(s) <= i < s.len() ==> is_ws(s[i]),
        tail_ws(s) < s.len() ==> !is_ws(s[s.len() - tail_ws(s) - 1]),
    decreases s.len(),
{
    if s.len() > 0 && is_ws(s.last()) {
        lemma_tail_ws_charac(s.drop_last());
        assert(forall|i: int|
            0 <= i < s.len() - 1 ==> s.drop_last()[i] == s[i]);
    }
}

/// The value with an optional leading plus sign removed.
pub open spec fn digits_part(s: Seq<u8>) -> Seq<u8> {
    if s.len() > 0 && s[0] == PLUS {
        s.drop_first()
    } else {
        s
    }
}

pub open spec fn is_digit(b: u8) -> bool {
    DIGIT0 <= b <= DIGIT9
}

pub open spec fn all_digits(s: Seq<u8>) -> bool {
    forall|i: int| 0 <= i < s.len() ==> is_digit(s[i])
}

/// The non-negative integer written in decimal in `s`.
pub open spec fn dec_val(s: Seq<u8>) -> int
    decreases s.len(),
{
    if s.len() == 0 {
        0
    } else {
        dec_val(s.drop_last()) * 10 + (s.last() - DIGIT0)
    }
}

pub proof fn lemma_dec_val_nonneg(s: Seq<u8>)
    requires
        all_digits(s),
    ensures
        dec_val(s) >= 0,
    decreases s.len(),
{
    if s.len() > 0 {
        assert(all_digits(s.drop_last())) by {
            assert(forall|i: int| 0 <= i < s.len() - 1 ==> s.drop_last()[i] == s[i]);
        }
        lemma_dec_val_nonneg(s.drop_last());
    }
}

/// The value of a digit string only grows as digits are appended.
pub proof fn lemma_dec_val_take_le(s: Seq<u8>, i: int)
    requires
        all_digits(s),
        0 <= i <= s.len(),
    ensures
        dec_val(s.take(i)) <= dec_val(s),
    decreases s.len(),
{
    if i == s.len() {
        assert(s.take(i) =~= s);
    } else {
        let d = s.drop_last();
        assert(all_digits(d)) by {
            assert(forall|j: int| 0 <= j < s.len() - 1 ==> d[j] == s[j]);
        }
        lemma_dec_val_take_le(d, i);
        assert(s.take(i) =~= d.take(i));
        lemma_dec_val_nonneg(d);
    }
}

/// What the length-declaring header of a block says.
#[derive(Clone, Copy, Debug, PartialEq, Eq, Structural)]
pub enum LengthHeader {
    /// A well-formed value.
    Found(usize),
    /// No length-declaring header in the block.
    Missing,
    /// A header whose value is not a machine-sized non-negative integer.
    Malformed,
}

/// The declared content length of the header block `h`, read from the first
/// length-declaring header line, case-insensitively, with surrounding
/// whitespace ignored.
pub open spec fn content_length_of(h: Seq<u8>) -> LengthHeader {
    match first_cl_from(h, 0) {
        Option::None => LengthHeader::Missing,
        Option::Some(p) => {
            let e = val_end_from(h, p + 15);
            let t = trimmed(h.subrange(p + 15, e));
            let d = digits_part(t);
            if d.len() > 0 && all_digits(d) && dec_val(d) <= usize::MAX {
                LengthHeader::Found(dec_val(d) as usize)
            } else {
                LengthHeader::Malformed
            }
        },
    }
}

/// Whether the length-declaring header name begins at `i`, the line-start
/// test aside.
fn key_matches_at(h: &Vec<u8>, i: usize) -> (r: bool)
    requires
        i + 15 <= h.len(),
    ensures
        r <==> (forall|k: int| 0 <= k < 15 ==> ascii_lower(h@[i + k]) == cl_key()[k]),
{
    let mut k: usize = 0;
    while k < 15
        invariant
            k <= 15,
            i + 15 <= h.len(),
            forall|m: int| 0 <= m < k ==> ascii_lower(h@[i + m]) == cl_key()[m],
        decreases 15 - k,
    {
        if lower_byte(h[i + k]) != cl_key_byte(k) {
            proof {
                assert(!(ascii_lower(h@[i + k as int]) == cl_key()[k as int]));
            }
            return false;
        }
        k = k + 1;
    }
    true
}

/// Finds the first length-declaring header line of `h`.
fn find_cl_pos(h: &Vec<u8>) -> (r: Option<usize>)
    ensures
        match r {
            Some(p) => Some(p as int) == first_cl_from(h@, 0),
            None => first_cl_from(h@, 0) is None,
        },
{
    let mut i: usize = 0;
    while i < h.len()
        invariant
            i <= h.len(),
            forall|j: int| 0 <= j < i ==> !cl_at(h@, j),
        decreases h.len() - i,
    {
        let starts_line = i == 0 || h[i - 1] == LF;
        if starts_line && h.len() - i >= 15 {
            let ok = key_matches_at(h, i);
            if ok {
                proof {
                    assert(cl_at(h@, i as int));
                    lemma_first_cl_charac(h@, 0);
                    if first_cl_from(h@, 0) is None {
                        assert(false);
                    } else {
                        let q = first_cl_from(h@, 0)->Some_0;
                        assert(cl_at(h@, q));
                        assert(q == i);
                    }
                }
                return Some(i);
            }
            proof {
                assert(!cl_at(h@, i as int));
            }
        } else {
            proof {
                assert(!cl_at(h@, i as int));
            }
        }
        i = i + 1;
    }
    proof {
        lemma_first_cl_charac(h@, 0);
        if first_cl_from(h@, 0) is Some {
            let q = first_cl_from(h@, 0)->Some_0;
            assert(cl_at(h@, q));
            assert(false);
        }
    }
    None
}

/// Reads the declared content length out of the header block `h`.
#[verifier::rlimit(100)]
#[verifier::loop_isolation(false)]
pub fn parse_content_length(h: &Vec<u8>) -> (r: LengthHeader)
    ensures
        r == content_length_of(h@),
{
    let p = match find_cl_pos(h) {
        None => {
            return LengthHeader::Missing;
        },
        Some(p) => p,
    };
    let hlen = h.len();
    proof {
        lemma_first_cl_charac(h@, 0);
        assert(cl_at(h@, p as int));
        assert(p + 15 <= hlen);
    }
    let v0 = p + 15;
    // End of the value: the next CR, LF or colon.
    let mut e: usize = v0;
    while e < h.len() && h[e] != CR && h[e] != LF && h[e] != COLON
        invariant
            v0 <= e <= h.len(),
            forall|j: int| v0 <= j < e ==> !(h@[j] == CR || h@[j] == LF || h@[j] == COLON),
        decreases h.len() - e,
    {
        e = e + 1;
    }
    proof {
        lemma_val_end_charac(h@, v0 as int);
        let es = val_end_from(h@, v0 as int);
        if (e as int) < es {
            // the characterization says no stop byte before `es`,
            // yet the loop stopped at `e`
            assert(!(h@[e as int] == CR || h@[e as int] == LF || h@[e as int] == COLON));
            assert(false);
        }
        if es < e as int {
            // the loop saw no stop byte before `e`, yet `es` holds one
            assert(!(h@[es] == CR || h@[es] == LF || h@[es] == COLON));
            assert(false);
        }
        assert(e as int == es);
    }
    let ghost raw = h@.subrange(v0 as int, e as int);
    // Trim whitespace off both ends of the raw value.
    let mut a: usize = v0;
    while a < e && (h[a] == SPACE || h[a] == TAB)
        invariant
            v0 <= a <= e <= h.len(),
            forall|j: int| v0 <= j < a ==> is_ws(h@[j]),
        decreases e - a,
    {
        a = a + 1;
    }
    let mut b: usize = e;
    while b > a && (h[b - 1] == SPACE || h[b - 1] == TAB)
        invariant
            a <= b <= e <= h.len(),
            forall|j: int| b <= j < e ==> is_ws(h@[j]),
        decreases b - a,
    {
        b = b - 1;
    }
    proof {
        lemma_lead_ws_charac(raw);
        lemma_tail_ws_charac(raw);
        assert(forall|j: int| 0 <= j < raw.len() ==> raw[j] == h@[v0 + j]);
        let la = lead_ws(raw);
        let tb = raw.len() - tail_ws(raw);
        if a == b {
            // everything in the value was whitespace
            assert(la == raw.len()) by {
                if la < raw.len() {
                    assert(is_ws(h@[v0 + la]));
                    assert(!is_ws(raw[la]));
                }
            }
            assert(trimmed(raw).len() == 0);
        } else {
            assert(la == a - v0) by {
                if la < a - v0 {
                    assert(is_ws(h@[v0 + la]));
                    assert(!is_ws(raw[la]));
                }
                if a - v0 < la {
                    assert(is_ws(raw[a - v0]));
                    assert(!is_ws(h@[a as int]));
                }
            }
            assert(tb == b - v0) by {
                if tb < b - v0 {
                    // the tail count says everything from tb on is whitespace
                    assert(is_ws(raw[b - v0 - 1]));
                    assert(!is_ws(h@[b - 1]));
                }
                if b - v0 < tb {
                    // the loop says everything from b on is whitespace
                    assert(is_ws(h@[v0 + tb - 1]));
                    assert(!is_ws(raw[tb - 1]));
                }
            }
            assert(trimmed(raw) =~= h@.subrange(a as int, b as int));
        }
    }
    let ghost tv = trimmed(raw);
    if a == b {
        proof {
            assert(digits_part(tv).len() == 0);
        }
        return LengthHeader::Malformed;
    }
    // Skip an optional leading plus sign.
    let ds: usize = if h[a] == PLUS {
        a + 1
    } else {
        a
    };
    proof {
        assert(tv =~= h@.subrange(a as int, b as int));
        assert(digits_part(tv) =~= h@.subrange(ds as int, b as int));
    }
    let ghost dv = digits_part(tv);
    if ds == b {
        return LengthHeader::Malformed;
    }
    let mut n: usize = 0;
    let mut idx: usize = ds;
    while idx < b
        invariant
            ds <= idx <= b <= h.len(),
            dv =~= h@.subrange(ds as int, b as int),
            forall|j: int| 0 <= j < idx - ds ==> is_digit(dv[j]),
            n == dec_val(dv.take(idx - ds)),
        decreases b - idx,
    {
        let c = h[idx];
        if c < DIGIT0 || c > DIGIT9 {
            proof {
                assert(!is_digit(dv[idx - ds]));
                assert(!all_digits(dv));
            }
            return LengthHeader::Malformed;
        }
        let d = (c - DIGIT0) as usize;
        proof {
            assert(dv.take(idx - ds + 1).drop_last() =~= dv.take(idx - ds));
            assert(dv.take(idx - ds + 1).last() == dv[idx - ds]);
        }
        if n > (usize::MAX - d) / 10 {
            proof {
                assert(n * 10 + d > usize::MAX) by (nonlinear_arith)
                    requires
                        n > (usize::MAX - d) / 10,
                        d <= 9,
                ;
                assert(dec_val(dv.take(idx - ds + 1)) > usize::MAX);
                if all_digits(dv) {
                    lemma_dec_val_take_le(dv, idx - ds + 1);
                    assert(dec_val(dv) > usize::MAX);
                }
            }
            return LengthHeader::Malformed;
        }
        proof {
            assert(n * 10 + d <= usize::MAX) by (nonlinear_arith)
                requires
                    n <= (usize::MAX - d) / 10,
                    d <= 9,
            ;
        }
        n = n * 10 + d;
        idx = idx + 1;
    }
    proof {
        assert(dv.take(b - ds) =~= dv);
        assert(all_digits(dv));
        lemma_dec_val_nonneg(dv);
        assert(content_length_of(h@) == LengthHeader::Found(dec_val(dv) as usize));
    }
    LengthHeader::Found(n)
}

} // verus!
