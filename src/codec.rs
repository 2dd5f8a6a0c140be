//! Frame codec: decimal numerals, request frames (arrays of bulk strings) and
//! reply encoding.
use vstd::prelude::*;
use vstd::string::StringSliceAdditionalSpecFns;

verus! {

pub open spec fn is_digit(b: u8) -> bool {
    48 <= b <= 57
}

/// The canonical decimal numeral of `n`, most significant digit first.
pub open spec fn dec(n: nat) -> Seq<u8>
    decreases n,
{
    if n < 10 {
        seq![(n + 48) as u8]
    } else {
        dec(n / 10).push((n % 10 + 48) as u8)
    }
}

pub open spec fn all_digits(s: Seq<u8>) -> bool {
    forall|i: int| 0 <= i < s.len() ==> is_digit(#[trigger] s[i])
}

/// The number that a string of decimal digits denotes.
pub open spec fn digits_value(s: Seq<u8>) -> nat
    decreases s.len(),
{
    if s.len() == 0 {
        0
    } else {
        digits_value(s.drop_last()) * 10 + (s.last() - 48) as nat
    }
}

/// Digits with no superfluous leading zero.
pub open spec fn canonical(s: Seq<u8>) -> bool {
    s.len() >= 1 && all_digits(s) && (s.len() == 1 || s[0] != 48)
}

/// At position `p` of `b` stands the numeral of `n`, followed by a non-digit.
pub open spec fn numeral_at(b: Seq<u8>, p: int, n: nat) -> bool {
    &&& 0 <= p
    &&& p + dec(n).len() < b.len()
    &&& b.subrange(p, p + dec(n).len()) == dec(n)
    &&& !is_digit(b[p + dec(n).len()])
}

pub proof fn lemma_dec_shape(n: nat)
    ensures
        canonical(dec(n)),
        digits_value(dec(n)) == n,
        dec(n)[0] == 48 <==> n == 0,
    decreases n,
{
    if n >= 10 {
        lemma_dec_shape(n / 10);
        let d = dec(n);
        assert(d.drop_last() == dec(n / 10));
        assert(all_digits(d)) by {
            assert forall|i: int| 0 <= i < d.len() implies is_digit(#[trigger] d[i]) by {
                if i < d.len() - 1 {
                    assert(d[i] == dec(n / 10)[i]);
                }
            }
        }
        assert(d[0] == dec(n / 10)[0]);
        assert(d.last() == (n % 10 + 48) as u8);
        assert(digits_value(d) == (n / 10) * 10 + n % 10);
    } else {
        assert(dec(n).drop_last().len() == 0);
        assert(digits_value(dec(n).drop_last()) == 0);
        assert(dec(n).last() == (n + 48) as u8);
        assert(digits_value(dec(n)) == n);
    }
}

proof fn lemma_value_positive(s: Seq<u8>)
    requires
        s.len() >= 1,
        all_digits(s),
        s[0] != 48,
    ensures
        digits_value(s) >= 1,
    decreases s.len(),
{
    if s.len() > 1 {
        let t = s.drop_last();
        assert(t[0] == s[0]);
        assert(all_digits(t)) by {
            assert forall|i: int| 0 <= i < t.len() implies is_digit(#[trigger] t[i]) by {
                assert(t[i] == s[i]);
            }
        }
        lemma_value_positive(t);
    } else {
        assert(s.drop_last().len() == 0);
    }
}

/// Canonical digits are the numeral of the number they denote.
pub proof fn lemma_canonical_is_dec(s: Seq<u8>)
    requires
        canonical(s),
    ensures
        dec(digits_value(s)) == s,
    decreases s.len(),
{
    let v = digits_value(s);
    let t = s.drop_last();
    assert(is_digit(s[s.len() - 1]));
    if s.len() == 1 {
        assert(t.len() == 0);
        assert(dec(v) =~= s);
    } else {
        assert(t[0] == s[0]);
        assert(all_digits(t)) by {
            assert forall|i: int| 0 <= i < t.len() implies is_digit(#[trigger] t[i]) by {
                assert(t[i] == s[i]);
            }
        }
        lemma_value_positive(t);
        lemma_canonical_is_dec(t);
        assert(v / 10 == digits_value(t));
        assert(v % 10 == (s.last() - 48) as nat);
        assert(dec(v) =~= s);
    }
}

/// A prefix of a string of digits denotes no more than the whole.
pub proof fn lemma_value_prefix(s: Seq<u8>, j: int)
    requires
        all_digits(s),
        0 <= j <= s.len(),
    ensures
        digits_value(s.subrange(0, j)) <= digits_value(s),
    decreases s.len(),
{
    if j < s.len() {
        let t = s.drop_last();
        assert(all_digits(t)) by {
            assert forall|i: int| 0 <= i < t.len() implies is_digit(#[trigger] t[i]) by {
                assert(t[i] == s[i]);
            }
        }
        lemma_value_prefix(t, j);
        assert(t.subrange(0, j) == s.subrange(0, j));
        assert(is_digit(s[s.len() - 1]));
    } else {
        assert(s.subrange(0, j) == s);
    }
}

/// `w` agrees with `b` from position `p` on, as far as `b` goes: `b` could
/// still turn out to hold `w` there.
pub open spec fn agree_at(b: Seq<u8>, p: int, w: Seq<u8>) -> bool {
    forall|k: int| 0 <= k < w.len() && 0 <= p + k < b.len() ==> b[p + k] == #[trigger] w[k]
}

/// What a scan for a decimal numeral found.
#[derive(Debug, PartialEq, Eq)]
pub enum Scan {
    /// The numeral of the value, ending just before the index, where a
    /// non-digit stands.
    Number(u64, usize),
    /// Only digits up to the end of the input: more bytes are needed.
    Short,
    /// No canonical numeral within the limit can stand here.
    Bad,
}

/// Reads a canonical decimal numeral no greater than `limit` at `start`.
/// Where the bytes could still be the numeral of some `n` up to `limit`
/// followed by a non-digit, the scan finds `n`, or asks for more bytes when
/// they end before that numeral does.
pub fn scan_decimal(buf: &[u8], start: usize, limit: u64) -> (r: Scan)
    requires
        start <= buf@.len(),
    ensures
        r matches Scan::Number(v, end) ==> {
            &&& v <= limit
            &&& start < end < buf@.len()
            &&& numeral_at(buf@, start as int, v as nat)
            &&& end == start + dec(v as nat).len()
        },
        forall|n: nat, c: u8|
            n <= limit && !is_digit(c) && #[trigger] agree_at(buf@, start as int, dec(n).push(c))
                ==> r == Scan::Number(n as u64, (start + dec(n).len()) as usize) || (r is Short
                && start + dec(n).len() >= buf@.len()),
        forall|n: nat|
            n <= limit && #[trigger] numeral_at(buf@, start as int, n) ==> r == Scan::Number(
                n as u64,
                (start + dec(n).len()) as usize,
            ),
        r is Short ==> all_digits(buf@.subrange(start as int, buf@.len() as int)),
        r is Short ==> exists|n: nat|
            n <= limit && start + dec(n).len() >= buf@.len() && #[trigger] agree_at(
                buf@,
                start as int,
                dec(n),
            ),
{
    let mut i: usize = start;
    let mut acc: u64 = 0;
    while i < buf.len() && 48 <= buf[i] && buf[i] <= 57
        invariant
            start <= i <= buf@.len(),
            all_digits(buf@.subrange(start as int, i as int)),
            acc == digits_value(buf@.subrange(start as int, i as int)),
            acc <= limit,
            i - start >= 2 ==> buf@[start as int] != 48,
        decreases buf@.len() - i,
    {
        let ghost s = buf@.subrange(start as int, i as int);
        let ghost s1 = buf@.subrange(start as int, i + 1);
        assert(s1.drop_last() == s);
        assert(all_digits(s1)) by {
            assert forall|k: int| 0 <= k < s1.len() implies is_digit(#[trigger] s1[k]) by {
                if k < s.len() {
                    assert(s1[k] == s[k]);
                }
            }
        }
        if i > start && buf[start] == 48 {
            proof {
                assert forall|n: nat, c: u8|
                    n <= limit && !is_digit(c) && #[trigger] agree_at(
                        buf@,
                        start as int,
                        dec(n).push(c),
                    ) implies false by {
                    lemma_dec_shape(n);
                    let w = dec(n).push(c);
                    assert(buf@[start + 0] == w[0]);
                    assert(buf@[start + 1] == s1[1]);
                    assert(buf@[start + 1] == w[1]);
                }
                assert forall|n: nat| n <= limit && numeral_at(buf@, start as int, n) implies false by {
                    lemma_dec_shape(n);
                    assert(buf@[start as int] == dec(n)[0]);
                    assert(buf@[start + 1] == s1[1]);
                }
            }
            return Scan::Bad;
        }
        let d: u64 = (buf[i] - 48) as u64;
        if d > limit || acc > (limit - d) / 10 {
            proof {
                assert(digits_value(s1) > limit) by (nonlinear_arith)
                    requires
                        digits_value(s1) == acc * 10 + d,
                        d > limit || acc > (limit - d) / 10,
                ;
                assert forall|n: nat, c: u8|
                    n <= limit && !is_digit(c) && #[trigger] agree_at(
                        buf@,
                        start as int,
                        dec(n).push(c),
                    ) implies false by {
                    lemma_dec_shape(n);
                    let dn = dec(n);
                    let w = dn.push(c);
                    let j = i + 1 - start;
                    if dn.len() < j {
                        assert(s1[dn.len() as int] == buf@[start + dn.len()]);
                        assert(buf@[start + dn.len()] == w[dn.len() as int]);
                    } else {
                        assert(dn.subrange(0, j) =~= s1) by {
                            assert forall|k: int| 0 <= k < j implies dn.subrange(0, j)[k] == s1[k] by {
                                assert(buf@[start + k] == w[k]);
                                assert(s1[k] == buf@[start + k]);
                            }
                        }
                        lemma_value_prefix(dn, j);
                    }
                }
                assert forall|n: nat| n <= limit && numeral_at(buf@, start as int, n) implies false by {
                    lemma_dec_shape(n);
                    let dn = dec(n);
                    let j = i + 1 - start;
                    if start + dn.len() < i + 1 {
                        assert(s1[dn.len() as int] == buf@[start + dn.len()]);
                    } else {
                        assert(dn.subrange(0, j) == s1);
                        lemma_value_prefix(dn, j);
                    }
                }
            }
            return Scan::Bad;
        }
        assert(acc * 10 + d <= limit) by (nonlinear_arith)
            requires
                d <= limit,
                acc <= (limit - d) / 10,
        ;
        acc = acc * 10 + d;
        i = i + 1;
    }
    let ghost s = buf@.subrange(start as int, i as int);
    if i == buf.len() {
        proof {
            assert forall|n: nat, c: u8|
                n <= limit && !is_digit(c) && #[trigger] agree_at(buf@, start as int, dec(n).push(c))
                    implies start + dec(n).len() >= buf@.len() by {
                let e = start + dec(n).len();
                if e < buf@.len() {
                    assert(s[e - start] == buf@[e]);
                    assert(buf@[start + dec(n).len()] == dec(n).push(c)[dec(n).len() as int]);
                }
            }
            assert forall|n: nat| n <= limit && numeral_at(buf@, start as int, n) implies false by {
                let e = start + dec(n).len();
                assert(s[e - start] == buf@[e]);
            }
            if i == start {
                lemma_dec_shape(0);
                assert(agree_at(buf@, start as int, dec(0)));
            } else {
                assert(canonical(s));
                lemma_canonical_is_dec(s);
                assert(agree_at(buf@, start as int, dec(acc as nat))) by {
                    assert forall|k: int| 0 <= k < dec(acc as nat).len() && 0 <= start + k < buf@.len() implies buf@[start + k] == #[trigger] dec(acc as nat)[k] by {
                        assert(s[k] == buf@[start + k]);
                    }
                }
            }
        }
        return Scan::Short;
    }
    if i == start {
        proof {
            assert forall|n: nat, c: u8|
                n <= limit && !is_digit(c) && #[trigger] agree_at(buf@, start as int, dec(n).push(c))
                    implies false by {
                lemma_dec_shape(n);
                assert(buf@[start + 0] == dec(n).push(c)[0]);
            }
            assert forall|n: nat| n <= limit && numeral_at(buf@, start as int, n) implies false by {
                lemma_dec_shape(n);
                assert(buf@[start as int] == dec(n)[0]);
            }
        }
        return Scan::Bad;
    }
    proof {
        assert(canonical(s));
        lemma_canonical_is_dec(s);
        assert forall|n: nat, c: u8|
            n <= limit && !is_digit(c) && #[trigger] agree_at(buf@, start as int, dec(n).push(c))
                implies n == acc && start + dec(n).len() == i by {
            lemma_dec_shape(n);
            let dn = dec(n);
            let w = dn.push(c);
            let e = start + dn.len();
            if e < i {
                assert(s[e - start] == buf@[e]);
                assert(buf@[start + dn.len()] == w[dn.len() as int]);
            } else if e > i {
                assert(buf@[start + (i - start)] == w[i - start]);
            } else {
                assert(s =~= dn) by {
                    assert forall|k: int| 0 <= k < dn.len() implies s[k] == dn[k] by {
                        assert(buf@[start + k] == w[k]);
                    }
                }
            }
        }
        assert forall|n: nat| n <= limit && numeral_at(buf@, start as int, n) implies n == acc
            && start + dec(n).len() == i by {
            lemma_dec_shape(n);
            let e = start + dec(n).len();
            if e < i {
                assert(s[e - start] == buf@[e]);
            } else if e > i {
                assert(dec(n)[i - start] == buf@[i as int]);
            } else {
                assert(buf@.subrange(start as int, e) == dec(n));
            }
        }
    }
    Scan::Number(acc, i)
}

/// The largest number of elements a request frame may declare.
pub const MAX_ARGS: u64 = 1048576;

/// The largest length a bulk string of a request frame may declare.
pub const MAX_BULK: u64 = 536870912;

pub open spec fn crlf() -> Seq<u8> {
    seq![13u8, 10u8]
}

pub open spec fn starts_with(b: Seq<u8>, p: Seq<u8>) -> bool {
    p.len() <= b.len() && b.subrange(0, p.len() as int) == p
}

/// `$<len>\r\n<bytes>\r\n`
pub open spec fn bulk(x: Seq<u8>) -> Seq<u8> {
    seq![36u8] + dec(x.len()) + crlf() + x + crlf()
}

/// The bulk strings of `a`, one after the other.
pub open spec fn bulks(a: Seq<Seq<u8>>) -> Seq<u8>
    decreases a.len(),
{
    if a.len() == 0 {
        seq![]
    } else {
        bulks(a.drop_last()) + bulk(a.last())
    }
}

/// `*<n>\r\n`
pub open spec fn array_header(n: nat) -> Seq<u8> {
    seq![42u8] + dec(n) + crlf()
}

/// The wire form of a request frame: an array of bulk strings.
pub open spec fn encode_frame(a: Seq<Seq<u8>>) -> Seq<u8> {
    array_header(a.len()) + bulks(a)
}

/// A frame whose declared count and lengths the decoder accepts.
pub open spec fn frame_fits(a: Seq<Seq<u8>>) -> bool {
    &&& a.len() <= MAX_ARGS
    &&& forall|i: int| 0 <= i < a.len() ==> (#[trigger] a[i]).len() <= MAX_BULK
}

pub open spec fn frame_view(v: Seq<Vec<u8>>) -> Seq<Seq<u8>> {
    v.map_values(|x: Vec<u8>| x@)
}

proof fn lemma_bulks_prefix(a: Seq<Seq<u8>>, j: int)
    requires
        0 <= j <= a.len(),
    ensures
        starts_with(bulks(a), bulks(a.take(j))),
        j < a.len() ==> bulks(a.take(j + 1)) == bulks(a.take(j)) + bulk(a[j]),
    decreases a.len(),
{
    if j < a.len() {
        assert(a.take(j + 1).drop_last() == a.take(j));
        lemma_bulks_prefix(a.drop_last(), j);
        assert(a.drop_last().take(j) == a.take(j));
        let b = bulks(a.drop_last());
        let t = bulks(a.take(j));
        assert(bulks(a).subrange(0, t.len() as int) == b.subrange(0, t.len() as int));
    } else {
        assert(a.take(j) == a);
        assert(bulks(a).subrange(0, bulks(a).len() as int) == bulks(a));
    }
}

/// At position `p` of `b` stands the numeral of `n`, followed by `\r\n`.
pub open spec fn line_number_at(b: Seq<u8>, p: int, n: nat) -> bool {
    &&& numeral_at(b, p, n)
    &&& p + dec(n).len() + 1 < b.len()
    &&& b[p + dec(n).len()] == 13
    &&& b[p + dec(n).len() + 1] == 10
}

/// `w` stands at position `q` of `b`.
pub open spec fn stands_at(b: Seq<u8>, q: int, w: Seq<u8>) -> bool {
    0 <= q && q + w.len() <= b.len() && b.subrange(q, q + w.len()) == w
}

/// Where `w` stands at `q` in `b`, each of its bytes does.
proof fn lemma_piece(b: Seq<u8>, q: int, w: Seq<u8>)
    requires
        0 <= q,
        q + w.len() <= b.len(),
        b.subrange(q, q + w.len()) == w,
    ensures
        forall|k: int| 0 <= k < w.len() ==> b[q + k] == #[trigger] w[k],
{
    assert forall|k: int| 0 <= k < w.len() implies b[q + k] == #[trigger] w[k] by {
        assert(b.subrange(q, q + w.len())[k] == b[q + k]);
    }
}

/// The parts of a bulk string that stands at `q` in `b`.
proof fn lemma_bulk_at(b: Seq<u8>, q: int, x: Seq<u8>)
    requires
        0 <= q,
        q + bulk(x).len() <= b.len(),
        b.subrange(q, q + bulk(x).len()) == bulk(x),
    ensures
        b[q] == 36,
        numeral_at(b, q + 1, x.len()),
        line_number_at(b, q + 1, x.len()),
        b[q + 1 + dec(x.len()).len()] == 13,
        b[q + 2 + dec(x.len()).len()] == 10,
        b.subrange(q + 3 + dec(x.len()).len(), q + 3 + dec(x.len()).len() + x.len()) == x,
        b[q + 3 + dec(x.len()).len() + x.len()] == 13,
        b[q + 4 + dec(x.len()).len() + x.len()] == 10,
{
    let w = bulk(x);
    let l = dec(x.len()).len() as int;
    lemma_piece(b, q, w);
    assert(w[0] == 36);
    assert(w[1 + l] == 13);
    assert(w[2 + l] == 10);
    assert(w[3 + l + x.len()] == 13);
    assert(w[4 + l + x.len()] == 10);
    assert(b[q + 1 + l] == w[1 + l]);
    assert(b.subrange(q + 1, q + 1 + l) =~= dec(x.len())) by {
        assert forall|k: int| 0 <= k < l implies b.subrange(q + 1, q + 1 + l)[k] == dec(
            x.len(),
        )[k] by {
            assert(w[1 + k] == dec(x.len())[k]);
            assert(b[q + (1 + k)] == w[1 + k]);
        }
    }
    lemma_dec_shape(x.len());
    assert(b.subrange(q + 3 + l, q + 3 + l + x.len()) =~= x) by {
        assert forall|k: int| 0 <= k < x.len() implies b.subrange(q + 3 + l, q + 3 + l + x.len())[k]
            == x[k] by {
            assert(w[3 + l + k] == x[k]);
            assert(b[q + (3 + l + k)] == w[3 + l + k]);
        }
    }
}

/// The parts of the array header of a frame that stands at the start of `b`.
proof fn lemma_header_at(b: Seq<u8>, a: Seq<Seq<u8>>)
    requires
        starts_with(b, encode_frame(a)),
    ensures
        b[0] == 42,
        line_number_at(b, 1, a.len()),
{
    let n = a.len();
    let e = encode_frame(a);
    let w = array_header(n);
    let l = dec(n).len() as int;
    lemma_piece(b, 0, e);
    assert(e[0] == w[0]);
    assert(e[1 + l] == w[1 + l]);
    assert(e[2 + l] == w[2 + l]);
    assert(b[0 + (1 + l)] == e[1 + l]);
    assert(b[0 + (2 + l)] == e[2 + l]);
    assert(b.subrange(1, 1 + l) =~= dec(n)) by {
        assert forall|k: int| 0 <= k < l implies b.subrange(1, 1 + l)[k] == dec(n)[k] by {
            assert(w[1 + k] == dec(n)[k]);
            assert(e[1 + k] == w[1 + k]);
            assert(b[0 + (1 + k)] == e[1 + k]);
        }
    }
    lemma_dec_shape(n);
}

/// Reads a canonical numeral no greater than `limit` at `start`, and the
/// `\r\n` after it; on success, returns the index after the line.
pub fn read_number_line(buf: &[u8], start: usize, limit: u64) -> (r: Scan)
    requires
        start <= buf@.len(),
    ensures
        r matches Scan::Number(v, next) ==> {
            &&& v <= limit
            &&& line_number_at(buf@, start as int, v as nat)
            &&& next == start + dec(v as nat).len() + 2
        },
        forall|n: nat|
            n <= limit && #[trigger] agree_at(buf@, start as int, dec(n) + crlf()) ==> r
                == Scan::Number(n as u64, (start + dec(n).len() + 2) as usize) || (r is Short
                && start + dec(n).len() + 2 > buf@.len()),
        forall|n: nat|
            n <= limit && #[trigger] line_number_at(buf@, start as int, n) ==> r == Scan::Number(
                n as u64,
                (start + dec(n).len() + 2) as usize,
            ),
        r is Short ==> exists|n: nat|
            n <= limit && start + dec(n).len() + 2 > buf@.len() && #[trigger] agree_at(
                buf@,
                start as int,
                dec(n) + crlf(),
            ),
{
    proof {
        assert forall|n: nat|
            n <= limit && #[trigger] agree_at(buf@, start as int, dec(n) + crlf()) implies agree_at(
            buf@,
            start as int,
            dec(n).push(13u8),
        ) by {
            let w = dec(n) + crlf();
            let v = dec(n).push(13u8);
            assert forall|k: int| 0 <= k < v.len() && 0 <= start + k < buf@.len() implies buf@[start
                + k] == #[trigger] v[k] by {
                assert(w[k] == v[k]);
            }
        }
    }
    match scan_decimal(buf, start, limit) {
        Scan::Number(v, end) => {
            if buf[end] != 13 {
                proof {
                    assert forall|n: nat|
                        n <= limit && #[trigger] agree_at(buf@, start as int, dec(n) + crlf()) implies false by {
                        assert(agree_at(buf@, start as int, dec(n).push(13u8)));
                        assert((dec(n) + crlf())[dec(n).len() as int] == 13);
                    }
                }
                return Scan::Bad;
            }
            if end + 1 == buf.len() {
                proof {
                    assert forall|n: nat|
                        n <= limit && #[trigger] agree_at(buf@, start as int, dec(n) + crlf()) implies
                        start + dec(n).len() + 2 > buf@.len() by {
                        assert(agree_at(buf@, start as int, dec(n).push(13u8)));
                    }
                    let w = dec(v as nat) + crlf();
                    assert(agree_at(buf@, start as int, w)) by {
                        assert forall|k: int| 0 <= k < w.len() && 0 <= start + k < buf@.len() implies buf@[start + k] == #[trigger] w[k] by {
                            if k < dec(v as nat).len() {
                                assert(buf@.subrange(start as int, end as int)[k] == buf@[start + k]);
                            }
                        }
                    }
                    assert(start + dec(v as nat).len() + 2 > buf@.len());
                }
                return Scan::Short;
            }
            if buf[end + 1] != 10 {
                proof {
                    assert forall|n: nat|
                        n <= limit && #[trigger] agree_at(buf@, start as int, dec(n) + crlf()) implies false by {
                        assert(agree_at(buf@, start as int, dec(n).push(13u8)));
                        assert((dec(n) + crlf())[dec(n).len() as int + 1] == 10);
                    }
                }
                return Scan::Bad;
            }
            proof {
                assert forall|n: nat|
                    n <= limit && #[trigger] agree_at(buf@, start as int, dec(n) + crlf()) implies n == v by {
                    assert(agree_at(buf@, start as int, dec(n).push(13u8)));
                }
            }
            Scan::Number(v, end + 2)
        },
        Scan::Short => {
            proof {
                assert forall|n: nat|
                    n <= limit && #[trigger] agree_at(buf@, start as int, dec(n) + crlf()) implies
                    start + dec(n).len() >= buf@.len() by {
                    assert(agree_at(buf@, start as int, dec(n).push(13u8)));
                }
                let n0 = choose|n: nat|
                    n <= limit && start + dec(n).len() >= buf@.len() && #[trigger] agree_at(
                        buf@,
                        start as int,
                        dec(n),
                    );
                let w = dec(n0) + crlf();
                assert(agree_at(buf@, start as int, w)) by {
                    assert forall|k: int| 0 <= k < w.len() && 0 <= start + k < buf@.len() implies buf@[start + k] == #[trigger] w[k] by {
                        assert(w[k] == dec(n0)[k]);
                    }
                }
                assert(start + dec(n0).len() + 2 > buf@.len());
            }
            Scan::Short
        },
        Scan::Bad => {
            proof {
                assert forall|n: nat|
                    n <= limit && #[trigger] agree_at(buf@, start as int, dec(n) + crlf()) implies false by {
                    assert(agree_at(buf@, start as int, dec(n).push(13u8)));
                }
            }
            Scan::Bad
        },
    }
}

proof fn lemma_next_item(b: Seq<u8>, a: Seq<Seq<u8>>, i: int)
    requires
        starts_with(b, encode_frame(a)),
        0 <= i < a.len(),
    ensures
        stands_at(b, array_header(a.len()).len() + bulks(a.take(i)).len() as int, bulk(a[i])),
{
    lemma_bulks_prefix(a, i);
    lemma_bulks_prefix(a, i + 1);
    let h = array_header(a.len());
    let e = encode_frame(a);
    let t = bulks(a.take(i));
    let w = bulk(a[i]);
    let q = h.len() + t.len() as int;
    lemma_piece(b, 0, e);
    assert(b.subrange(q, q + w.len()) =~= w) by {
        assert forall|k: int| 0 <= k < w.len() implies b.subrange(q, q + w.len())[k] == w[k] by {
            assert(bulks(a).subrange(0, (t + w).len() as int) == t + w);
            assert(bulks(a)[t.len() + k] == (t + w)[t.len() + k]);
            assert(e[q + k] == bulks(a)[t.len() + k]);
            assert(b[0 + (q + k)] == e[q + k]);
        }
    }
}

proof fn lemma_bulk_from(b: Seq<u8>, q: int, x: Seq<u8>)
    requires
        0 <= q,
        b[q] == 36,
        line_number_at(b, q + 1, x.len()),
        stands_at(b, q + 3 + dec(x.len()).len(), x),
        q + 4 + dec(x.len()).len() + x.len() < b.len(),
        b[q + 3 + dec(x.len()).len() + x.len()] == 13,
        b[q + 4 + dec(x.len()).len() + x.len()] == 10,
    ensures
        stands_at(b, q, bulk(x)),
{
    let l = dec(x.len()).len() as int;
    let w = bulk(x);
    assert(b.subrange(q, q + w.len()) =~= w) by {
        assert forall|k: int| 0 <= k < w.len() implies b.subrange(q, q + w.len())[k] == w[k] by {
            if 1 <= k < 1 + l {
                assert(b.subrange(q + 1, q + 1 + l)[k - 1] == b[q + k]);
            } else if 3 + l <= k < 3 + l + x.len() {
                assert(b.subrange(q + 3 + l, q + 3 + l + x.len())[k - 3 - l] == b[q + k]);
            }
        }
    }
}

proof fn lemma_header_from(b: Seq<u8>, n: nat)
    requires
        b[0] == 42,
        line_number_at(b, 1, n),
    ensures
        stands_at(b, 0, array_header(n)),
{
    let l = dec(n).len() as int;
    let w = array_header(n);
    assert(b.subrange(0, w.len() as int) =~= w) by {
        assert forall|k: int| 0 <= k < w.len() implies b.subrange(0, w.len() as int)[k] == w[k] by {
            if 1 <= k < 1 + l {
                assert(b.subrange(1, 1 + l)[k - 1] == b[k]);
            }
        }
    }
}

/// The request frame `a` stands at the start of `b`, and the decoder takes it.
pub open spec fn frame_at_start(b: Seq<u8>, a: Seq<Seq<u8>>) -> bool {
    frame_fits(a) && starts_with(b, encode_frame(a))
}

/// What the decoder made of the start of a buffer.
#[derive(Debug, PartialEq, Eq)]
pub enum Decoded {
    /// A whole frame, and the number of bytes it took.
    Frame(Vec<Vec<u8>>, usize),
    /// The buffer ends before the frame does.
    Incomplete,
    /// The bytes break the framing rules.
    Malformed,
}

impl Decoded {
    /// This outcome is the frame `a`, which took its whole encoding.
    pub open spec fn is_frame(&self, a: Seq<Seq<u8>>) -> bool {
        match self {
            Decoded::Frame(args, used) => frame_view(args@) == a && *used == encode_frame(a).len(),
            _ => false,
        }
    }
}

/// The frame `a` is one the decoder takes, and `b` could still turn out to
/// start with it.
pub open spec fn frame_agrees(b: Seq<u8>, a: Seq<Seq<u8>>) -> bool {
    frame_fits(a) && agree_at(b, 0, encode_frame(a))
}

proof fn lemma_agree_sub(b: Seq<u8>, w: Seq<u8>, q: int, x: Seq<u8>)
    requires
        agree_at(b, 0, w),
        stands_at(w, q, x),
    ensures
        agree_at(b, q, x),
{
    assert forall|k: int| 0 <= k < x.len() && 0 <= q + k < b.len() implies b[q + k] == #[trigger] x[k] by {
        assert(w.subrange(q, q + x.len())[k] == w[q + k]);
        assert(b[0 + (q + k)] == w[q + k]);
    }
}

proof fn lemma_full_agrees(b: Seq<u8>, a: Seq<Seq<u8>>)
    requires
        frame_at_start(b, a),
    ensures
        frame_agrees(b, a),
{
    lemma_piece(b, 0, encode_frame(a));
}

/// The layout of the header of the encoding of `a`.
proof fn lemma_header_layout(a: Seq<Seq<u8>>)
    ensures
        encode_frame(a)[0] == 42,
        stands_at(encode_frame(a), 1, dec(a.len()) + crlf()),
{
    let e = encode_frame(a);
    let l = dec(a.len()).len() as int;
    assert(e.subrange(1, 1 + l + 2) =~= dec(a.len()) + crlf());
}

/// The layout of element `i` in the encoding of `a`, which starts at `q`.
#[verifier::rlimit(30)]
proof fn lemma_item_layout(a: Seq<Seq<u8>>, i: int, q: int)
    requires
        0 <= i < a.len(),
        q == array_header(a.len()).len() + bulks(a.take(i)).len(),
    ensures
        q + bulk(a[i]).len() <= encode_frame(a).len(),
        encode_frame(a)[q] == 36,
        stands_at(encode_frame(a), q + 1, dec(a[i].len()) + crlf()),
        stands_at(encode_frame(a), q + 3 + dec(a[i].len()).len(), a[i]),
        encode_frame(a)[q + 3 + dec(a[i].len()).len() + a[i].len()] == 13,
        encode_frame(a)[q + 4 + dec(a[i].len()).len() + a[i].len()] == 10,
{
    let e = encode_frame(a);
    assert(e.subrange(0, e.len() as int) =~= e);
    lemma_next_item(e, a, i);
    let x = a[i];
    let w = bulk(x);
    let l = dec(x.len()).len() as int;
    lemma_piece(e, q, w);
    assert(w[0] == 36);
    assert(w[3 + l + x.len()] == 13);
    assert(w[4 + l + x.len()] == 10);
    assert(e[q + (3 + l + x.len())] == w[3 + l + x.len()]);
    assert(e[q + (4 + l + x.len())] == w[4 + l + x.len()]);
    assert(e.subrange(q + 1, q + 1 + l + 2) =~= dec(x.len()) + crlf()) by {
        assert forall|k: int| 0 <= k < l + 2 implies e.subrange(q + 1, q + 1 + l + 2)[k] == (dec(
            x.len(),
        ) + crlf())[k] by {
            assert(w[1 + k] == (dec(x.len()) + crlf())[k]);
            assert(e[q + (1 + k)] == w[1 + k]);
        }
    }
    assert(e.subrange(q + 3 + l, q + 3 + l + x.len()) =~= x) by {
        assert forall|k: int| 0 <= k < x.len() implies e.subrange(q + 3 + l, q + 3 + l + x.len())[k]
            == x[k] by {
            assert(w[3 + l + k] == x[k]);
            assert(e[q + (3 + l + k)] == w[3 + l + k]);
        }
    }
}

/// `b` could still turn out to start with the frame `a`, which it does not
/// hold whole yet.
pub open spec fn frame_prefix(b: Seq<u8>, a: Seq<Seq<u8>>) -> bool {
    frame_agrees(b, a) && b.len() < encode_frame(a).len()
}

proof fn lemma_bulks_concat(x: Seq<Seq<u8>>, y: Seq<Seq<u8>>)
    ensures
        bulks(x + y) == bulks(x) + bulks(y),
    decreases y.len(),
{
    if y.len() == 0 {
        assert(x + y =~= x);
        assert(bulks(x) + bulks(y) =~= bulks(x));
    } else {
        lemma_bulks_concat(x, y.drop_last());
        assert((x + y).drop_last() =~= x + y.drop_last());
        assert((x + y).last() == y.last());
        assert(bulks(x + y) =~= bulks(x) + bulks(y));
    }
}

/// `k` empty strings.
pub open spec fn blanks(k: nat) -> Seq<Seq<u8>> {
    Seq::new(k, |j: int| Seq::<u8>::empty())
}

/// `k` zero bytes.
pub open spec fn zeros(k: nat) -> Seq<u8> {
    Seq::new(k, |j: int| 0u8)
}

/// Where the bytes of `b` from `q` on could still be the bulk string of `x`.
proof fn lemma_bulk_agrees(b: Seq<u8>, q: int, x: Seq<u8>)
    requires
        0 <= q <= b.len(),
        q < b.len() ==> b[q] == 36,
        agree_at(b, q + 1, dec(x.len()) + crlf()),
        forall|j: int|
            0 <= j < x.len() && q + 3 + dec(x.len()).len() + j < b.len() ==> b[q + 3 + dec(
                x.len(),
            ).len() + j] == #[trigger] x[j],
        q + 3 + dec(x.len()).len() + x.len() < b.len() ==> b[q + 3 + dec(x.len()).len() + x.len()]
            == 13,
        q + 4 + dec(x.len()).len() + x.len() >= b.len(),
    ensures
        agree_at(b, q, bulk(x)),
{
    let l = dec(x.len()).len() as int;
    let w = bulk(x);
    assert forall|k: int| 0 <= k < w.len() && 0 <= q + k < b.len() implies b[q + k] == #[trigger] w[k] by {
        if 1 <= k < 3 + l {
            assert(w[k] == (dec(x.len()) + crlf())[k - 1]);
            assert(b[(q + 1) + (k - 1)] == (dec(x.len()) + crlf())[k - 1]);
        } else if 3 + l <= k < 3 + l + x.len() {
            assert(w[k] == x[k - 3 - l]);
            assert(b[q + 3 + l + (k - 3 - l)] == x[k - 3 - l]);
        }
    }
}

/// A buffer that holds the header of a frame of `n` elements and its first
/// elements `view` whole, and then what could still be the bulk string of
/// `x`, could still turn out to start with a frame.
proof fn lemma_prefix_witness(b: Seq<u8>, view: Seq<Seq<u8>>, x: Seq<u8>, n: nat)
    requires
        view.len() < n <= MAX_ARGS,
        frame_fits(view),
        x.len() <= MAX_BULK,
        starts_with(b, array_header(n) + bulks(view)),
        agree_at(b, (array_header(n) + bulks(view)).len() as int, bulk(x)),
        b.len() < (array_header(n) + bulks(view)).len() + bulk(x).len(),
    ensures
        exists|a: Seq<Seq<u8>>| #[trigger] frame_prefix(b, a),
{
    let rest = blanks((n - view.len() - 1) as nat);
    let vx = view.push(x);
    let a = vx + rest;
    lemma_bulks_concat(vx, rest);
    assert(vx.drop_last() =~= view);
    let h = array_header(n) + bulks(view);
    let q = h.len() as int;
    let e = encode_frame(a);
    assert(a.len() == n);
    assert(e =~= h + bulk(x) + bulks(rest));
    assert forall|j: int| 0 <= j < a.len() implies (#[trigger] a[j]).len() <= MAX_BULK by {
        if j < view.len() {
            assert(a[j] == view[j]);
        } else if j == view.len() {
            assert(a[j] == x);
        } else {
            assert(a[j] == rest[j - vx.len()]);
        }
    }
    assert forall|k: int| 0 <= k < e.len() && 0 <= 0 + k < b.len() implies b[0 + k] == #[trigger] e[k] by {
        if k < q {
            assert(b.subrange(0, q)[k] == b[k]);
        } else {
            assert(e[k] == bulk(x)[k - q]);
            assert(b[q + (k - q)] == bulk(x)[k - q]);
        }
    }
    assert(frame_prefix(b, a));
}

/// A buffer that holds `*` and what could still be the count line of `n`
/// elements could still turn out to start with a frame.
proof fn lemma_header_witness(b: Seq<u8>, n: nat)
    requires
        n <= MAX_ARGS,
        b.len() >= 1,
        b[0] == 42,
        agree_at(b, 1, dec(n) + crlf()),
        b.len() < 3 + dec(n).len(),
    ensures
        exists|a: Seq<Seq<u8>>| #[trigger] frame_prefix(b, a),
{
    let a = blanks(n);
    let e = encode_frame(a);
    assert(frame_fits(a));
    assert forall|k: int| 0 <= k < e.len() && 0 <= 0 + k < b.len() implies b[0 + k] == #[trigger] e[k] by {
        if k >= 1 {
            assert(e[k] == (dec(n) + crlf())[k - 1]);
            assert(b[1 + (k - 1)] == (dec(n) + crlf())[k - 1]);
        }
    }
    assert(frame_prefix(b, a));
}

/// Decodes the request frame at the start of `buf`, if a whole one is there.
/// The buffer is called malformed only where no frame that the decoder takes
/// could start with the bytes seen so far.
#[verifier::rlimit(60)]
pub fn decode_frame(buf: &[u8]) -> (r: Decoded)
    ensures
        r matches Decoded::Frame(args, used) ==> frame_at_start(buf@, frame_view(args@)) && r.is_frame(
            frame_view(args@),
        ),
        forall|a: Seq<Seq<u8>>| #[trigger] frame_at_start(buf@, a) ==> r.is_frame(a),
        forall|a: Seq<Seq<u8>>| #[trigger] frame_agrees(buf@, a) ==> !(r is Malformed),
        r is Incomplete ==> exists|a: Seq<Seq<u8>>| #[trigger] frame_prefix(buf@, a),
{
    proof {
        assert forall|a: Seq<Seq<u8>>| frame_at_start(buf@, a) implies frame_agrees(buf@, a) by {
            lemma_full_agrees(buf@, a);
        }
    }
    if buf.len() == 0 {
        proof {
            assert forall|a: Seq<Seq<u8>>| frame_at_start(buf@, a) implies false by {
                lemma_header_at(buf@, a);
            }
            let a0 = Seq::<Seq<u8>>::empty();
            assert(frame_prefix(buf@, a0));
        }
        return Decoded::Incomplete;
    }
    if buf[0] != 42 {
        proof {
            assert forall|a: Seq<Seq<u8>>| frame_agrees(buf@, a) implies false by {
                lemma_header_layout(a);
                assert(buf@[0int + 0int] == encode_frame(a)[0]);
            }
        }
        return Decoded::Malformed;
    }
    proof {
        assert forall|a: Seq<Seq<u8>>| frame_agrees(buf@, a) implies agree_at(
            buf@,
            1,
            dec(a.len()) + crlf(),
        ) by {
            lemma_header_layout(a);
            lemma_agree_sub(buf@, encode_frame(a), 1, dec(a.len()) + crlf());
        }
    }
    let (n, mut pos) = match read_number_line(buf, 1, MAX_ARGS) {
        Scan::Number(n, next) => (n, next),
        Scan::Short => {
            proof {
                assert forall|a: Seq<Seq<u8>>| frame_at_start(buf@, a) implies false by {
                    lemma_header_at(buf@, a);
                }
                let n0 = choose|n: nat|
                    n <= MAX_ARGS && 1 + dec(n).len() + 2 > buf@.len() && #[trigger] agree_at(
                        buf@,
                        1,
                        dec(n) + crlf(),
                    );
                lemma_header_witness(buf@, n0);
            }
            return Decoded::Incomplete;
        },
        Scan::Bad => {
            proof {
                assert forall|a: Seq<Seq<u8>>| frame_agrees(buf@, a) implies false by {
                    assert(agree_at(buf@, 1, dec(a.len()) + crlf()));
                }
            }
            return Decoded::Malformed;
        },
    };
    proof {
        lemma_header_from(buf@, n as nat);
        assert forall|a: Seq<Seq<u8>>| frame_agrees(buf@, a) implies a.len() == n by {
            assert(agree_at(buf@, 1, dec(a.len()) + crlf()));
        }
    }
    let mut args: Vec<Vec<u8>> = Vec::new();
    let mut i: u64 = 0;
    assert(frame_view(args@) =~= seq![]);
    assert(bulks(frame_view(args@)) =~= seq![]);
    assert(buf@.subrange(0, pos as int) =~= array_header(n as nat) + bulks(frame_view(args@)));
    while i < n
        invariant
            n <= MAX_ARGS,
            i <= n,
            args@.len() == i,
            pos <= buf@.len(),
            buf@.subrange(0, pos as int) == array_header(n as nat) + bulks(frame_view(args@)),
            frame_fits(frame_view(args@)),
            forall|a: Seq<Seq<u8>>| #[trigger] frame_at_start(buf@, a) ==> frame_agrees(buf@, a),
            forall|a: Seq<Seq<u8>>| #[trigger]
                frame_agrees(buf@, a) ==> a.len() == n && a.take(i as int) == frame_view(args@),
        decreases n - i,
    {
        let ghost view = frame_view(args@);
        proof {
            assert forall|a: Seq<Seq<u8>>| frame_agrees(buf@, a) implies {
                &&& pos + bulk(a[i as int]).len() <= encode_frame(a).len()
                &&& encode_frame(a)[pos as int] == 36
                &&& agree_at(buf@, pos + 1, dec(a[i as int].len()) + crlf())
                &&& stands_at(encode_frame(a), pos + 3 + dec(a[i as int].len()).len(), a[i as int])
                &&& encode_frame(a)[pos + 3 + dec(a[i as int].len()).len() + a[i as int].len()] == 13
                &&& encode_frame(a)[pos + 4 + dec(a[i as int].len()).len() + a[i as int].len()] == 10
                &&& a[i as int].len() <= MAX_BULK
            } by {
                assert(a.take(i as int) == view);
                assert(buf@.subrange(0, pos as int).len() == pos);
                lemma_item_layout(a, i as int, pos as int);
                lemma_agree_sub(buf@, encode_frame(a), pos + 1, dec(a[i as int].len()) + crlf());
            }
            assert forall|a: Seq<Seq<u8>>| frame_at_start(buf@, a) implies stands_at(
                buf@,
                pos as int,
                bulk(a[i as int]),
            ) && a[i as int].len() <= MAX_BULK by {
                lemma_next_item(buf@, a, i as int);
                assert(a.take(i as int) == view);
                assert(buf@.subrange(0, pos as int).len() == pos);
                assert(pos == array_header(n as nat).len() + bulks(view).len());
            }
        }
        if pos == buf.len() {
            proof {
                assert forall|a: Seq<Seq<u8>>| frame_at_start(buf@, a) implies false by {
                    lemma_bulk_at(buf@, pos as int, a[i as int]);
                }
                let x = Seq::<u8>::empty();
                lemma_dec_shape(0);
                assert(buf@.subrange(0, pos as int) =~= buf@);
                lemma_prefix_witness(buf@, view, x, n as nat);
            }
            return Decoded::Incomplete;
        }
        if buf[pos] != 36 {
            proof {
                assert forall|a: Seq<Seq<u8>>| frame_agrees(buf@, a) implies false by {
                    assert(buf@[0 + pos] == encode_frame(a)[pos as int]);
                }
            }
            return Decoded::Malformed;
        }
        let (len, p) = match read_number_line(buf, pos + 1, MAX_BULK) {
            Scan::Number(len, next) => (len as usize, next),
            Scan::Short => {
                proof {
                    assert forall|a: Seq<Seq<u8>>| frame_at_start(buf@, a) implies false by {
                        lemma_bulk_at(buf@, pos as int, a[i as int]);
                    }
                    let l0 = choose|l: nat|
                        l <= MAX_BULK && pos + 1 + dec(l).len() + 2 > buf@.len() && #[trigger] agree_at(
                            buf@,
                            pos + 1,
                            dec(l) + crlf(),
                        );
                    let x = zeros(l0);
                    lemma_bulk_agrees(buf@, pos as int, x);
                    lemma_prefix_witness(buf@, view, x, n as nat);
                }
                return Decoded::Incomplete;
            },
            Scan::Bad => {
                proof {
                    assert forall|a: Seq<Seq<u8>>| frame_agrees(buf@, a) implies false by {
                        assert(agree_at(buf@, pos + 1, dec(a[i as int].len()) + crlf()));
                    }
                }
                return Decoded::Malformed;
            },
        };
        proof {
            assert forall|a: Seq<Seq<u8>>| frame_agrees(buf@, a) implies a[i as int].len() == len by {
                assert(agree_at(buf@, pos + 1, dec(a[i as int].len()) + crlf()));
            }
        }
        if buf.len() - p < len + 2 {
            if buf.len() - p == len + 1 && buf[p + len] != 13 {
                proof {
                    assert forall|a: Seq<Seq<u8>>| frame_agrees(buf@, a) implies false by {
                        assert(buf@[0 + (p + len)] == encode_frame(a)[p + len]);
                    }
                }
                return Decoded::Malformed;
            }
            proof {
                assert forall|a: Seq<Seq<u8>>| frame_at_start(buf@, a) implies false by {
                    lemma_bulk_at(buf@, pos as int, a[i as int]);
                }
                let avail: int = if buf@.len() - p >= len { len as int } else { buf@.len() - p };
                let x = buf@.subrange(p as int, p + avail) + zeros((len - avail) as nat);
                assert(x.len() == len);
                assert forall|j: int| 0 <= j < x.len() && pos + 3 + dec(x.len()).len() + j < buf@.len() implies buf@[pos + 3 + dec(x.len()).len() + j] == #[trigger] x[j] by {
                    assert(x[j] == buf@.subrange(p as int, p + avail)[j]);
                }
                assert(agree_at(buf@, pos + 1, dec(x.len()) + crlf())) by {
                    let w = dec(x.len()) + crlf();
                    assert forall|k: int| 0 <= k < w.len() && 0 <= pos + 1 + k < buf@.len() implies buf@[pos + 1 + k] == #[trigger] w[k] by {
                        if k < dec(x.len()).len() {
                            assert(buf@.subrange(pos + 1, pos + 1 + dec(x.len()).len())[k] == buf@[pos + 1 + k]);
                        }
                    }
                }
                lemma_bulk_agrees(buf@, pos as int, x);
                lemma_prefix_witness(buf@, view, x, n as nat);
            }
            return Decoded::Incomplete;
        }
        if buf[p + len] != 13 || buf[p + len + 1] != 10 {
            proof {
                assert forall|a: Seq<Seq<u8>>| frame_agrees(buf@, a) implies false by {
                    assert(buf@[0 + (p + len)] == encode_frame(a)[p + len]);
                    assert(buf@[0 + (p + len + 1)] == encode_frame(a)[p + len + 1]);
                }
            }
            return Decoded::Malformed;
        }
        let mut item: Vec<u8> = Vec::new();
        let mut k: usize = 0;
        while k < len
            invariant
                p + len + 2 <= buf.len(),
                k <= len,
                item@ == buf@.subrange(p as int, p + k),
            decreases len - k,
        {
            assert(item@.push(buf@[p + k]) =~= buf@.subrange(p as int, p + k + 1));
            item.push(buf[p + k]);
            k = k + 1;
        }
        proof {
            lemma_bulk_from(buf@, pos as int, item@);
            assert forall|a: Seq<Seq<u8>>| frame_agrees(buf@, a) implies a.take(i + 1) == view.push(
                item@,
            ) by {
                let e = encode_frame(a);
                let x = a[i as int];
                assert(x =~= item@) by {
                    assert forall|j: int| 0 <= j < x.len() implies x[j] == item@[j] by {
                        assert(e.subrange(p as int, p + x.len())[j] == e[p + j]);
                        assert(buf@[0 + (p + j)] == e[p + j]);
                    }
                }
                assert(a.take(i + 1) =~= a.take(i as int).push(a[i as int]));
            }
        }
        args.push(item);
        let next = p + len + 2;
        proof {
            let v2 = frame_view(args@);
            assert(v2 =~= view.push(item@));
            assert(v2.drop_last() =~= view);
            assert(bulks(v2) == bulks(view) + bulk(item@));
            assert(buf@.subrange(0, next as int) =~= buf@.subrange(0, pos as int) + bulk(item@));
            assert(buf@.subrange(0, next as int) =~= array_header(n as nat) + bulks(v2));
            assert forall|j: int| 0 <= j < v2.len() implies (#[trigger] v2[j]).len() <= MAX_BULK by {
                if j < view.len() {
                    assert(v2[j] == view[j]);
                }
            }
        }
        pos = next;
        i = i + 1;
    }
    proof {
        let v = frame_view(args@);
        assert(buf@.subrange(0, pos as int) == encode_frame(v));
        assert forall|a: Seq<Seq<u8>>| frame_agrees(buf@, a) implies a == v by {
            assert(a.take(n as int) =~= a);
        }
    }
    Decoded::Frame(args, pos)
}

/// Appends the bytes of `b` to `out`.
pub fn append_bytes(out: &mut Vec<u8>, b: &[u8])
    ensures
        final(out)@ == old(out)@ + b@,
{
    let mut i: usize = 0;
    while i < b.len()
        invariant
            i <= b@.len(),
            out@ == old(out)@ + b@.subrange(0, i as int),
        decreases b@.len() - i,
    {
        assert(b@.subrange(0, i + 1) =~= b@.subrange(0, i as int).push(b@[i as int]));
        out.push(b[i]);
        i = i + 1;
    }
    assert(b@.subrange(0, i as int) =~= b@);
}

/// Appends the canonical decimal numeral of `n` to `out`.
pub fn push_decimal(out: &mut Vec<u8>, n: u64)
    ensures
        final(out)@ == old(out)@ + dec(n as nat),
    decreases n,
{
    if n >= 10 {
        push_decimal(out, n / 10);
    }
    out.push((n % 10) as u8 + 48);
    assert(out@ =~= old(out)@ + dec(n as nat));
}

/// Appends `\r\n` to `out`.
fn push_crlf(out: &mut Vec<u8>)
    ensures
        final(out)@ == old(out)@ + crlf(),
{
    out.push(13);
    out.push(10);
    assert(out@ =~= old(out)@ + crlf());
}

/// Appends the bulk string of `x` to `out`.
fn push_bulk(out: &mut Vec<u8>, x: &[u8])
    ensures
        final(out)@ == old(out)@ + bulk(x@),
{
    let ghost start = out@;
    out.push(36);
    push_decimal(out, x.len() as u64);
    push_crlf(out);
    append_bytes(out, x);
    push_crlf(out);
    assert(out@ =~= start + bulk(x@));
}

/// The wire form of the request frame `args`.
pub fn encode_request(args: &Vec<Vec<u8>>) -> (r: Vec<u8>)
    ensures
        r@ == encode_frame(frame_view(args@)),
{
    let mut out: Vec<u8> = Vec::new();
    out.push(42);
    push_decimal(&mut out, args.len() as u64);
    push_crlf(&mut out);
    assert(out@ =~= array_header(args@.len()));
    let mut i: usize = 0;
    while i < args.len()
        invariant
            i <= args@.len(),
            out@ == array_header(args@.len()) + bulks(frame_view(args@).take(i as int)),
        decreases args@.len() - i,
    {
        let ghost before = out@;
        push_bulk(&mut out, args[i].as_slice());
        proof {
            let v = frame_view(args@);
            assert(v.take(i + 1).drop_last() =~= v.take(i as int));
            assert(v[i as int] == args@[i as int]@);
            assert(out@ =~= array_header(args@.len()) + bulks(v.take(i + 1)));
        }
        i = i + 1;
    }
    assert(frame_view(args@).take(i as int) =~= frame_view(args@));
    out
}

/// The reply to a request.
#[derive(Debug, PartialEq, Eq)]
pub enum Reply {
    /// `+<text>\r\n`
    Simple(Vec<u8>),
    /// `$<len>\r\n<bytes>\r\n`
    Bulk(Vec<u8>),
    /// `$-1\r\n`, the absent value
    Null,
    /// `-<text>\r\n`
    Error(Vec<u8>),
}

pub open spec fn null_bulk() -> Seq<u8> {
    seq![36u8, 45u8, 49u8, 13u8, 10u8]
}

impl Reply {
    /// The wire form of the reply.
    pub open spec fn wire(&self) -> Seq<u8> {
        match self {
            Reply::Simple(t) => seq![43u8] + t@ + crlf(),
            Reply::Bulk(b) => bulk(b@),
            Reply::Null => null_bulk(),
            Reply::Error(t) => seq![45u8] + t@ + crlf(),
        }
    }
}

/// The wire form of a reply.
pub fn encode_reply(reply: &Reply) -> (r: Vec<u8>)
    ensures
        r@ == reply.wire(),
{
    let mut out: Vec<u8> = Vec::new();
    match reply {
        Reply::Simple(t) => {
            out.push(43);
            append_bytes(&mut out, t.as_slice());
            push_crlf(&mut out);
        },
        Reply::Bulk(b) => {
            push_bulk(&mut out, b.as_slice());
        },
        Reply::Null => {
            out.push(36);
            out.push(45);
            out.push(49);
            push_crlf(&mut out);
        },
        Reply::Error(t) => {
            out.push(45);
            append_bytes(&mut out, t.as_slice());
            push_crlf(&mut out);
        },
    }
    assert(out@ =~= reply.wire());
    out
}

/// `$<len>\r\n<bytes>`: the framing of a snapshot, with no terminator.
pub open spec fn snapshot_frame(x: Seq<u8>) -> Seq<u8> {
    seq![36u8] + dec(x.len()) + crlf() + x
}

/// Frames a snapshot for transfer to a replica.
pub fn encode_snapshot(blob: &[u8]) -> (r: Vec<u8>)
    ensures
        r@ == snapshot_frame(blob@),
{
    let mut out: Vec<u8> = Vec::new();
    out.push(36);
    push_decimal(&mut out, blob.len() as u64);
    push_crlf(&mut out);
    append_bytes(&mut out, blob);
    assert(out@ =~= snapshot_frame(blob@));
    out
}

/// What a reader of leader replies made of the start of a buffer.
#[derive(Debug, PartialEq, Eq)]
pub enum Piece {
    /// The content, and the number of bytes that the whole piece took.
    Item(Vec<u8>, usize),
    /// The buffer ends before the piece does.
    Incomplete,
    /// The bytes break the framing rules.
    Malformed,
}

impl Piece {
    /// This outcome is the content `x`, whose framing `w` it took whole.
    pub open spec fn is_item(&self, x: Seq<u8>, w: Seq<u8>) -> bool {
        match self {
            Piece::Item(c, used) => c@ == x && *used == w.len(),
            _ => false,
        }
    }
}

/// Copies `buf[from..to]`.
fn copy_range(buf: &[u8], from: usize, to: usize) -> (r: Vec<u8>)
    requires
        from <= to <= buf@.len(),
    ensures
        r@ == buf@.subrange(from as int, to as int),
{
    let mut out: Vec<u8> = Vec::new();
    let mut k: usize = from;
    while k < to
        invariant
            from <= k <= to,
            to <= buf.len(),
            out@ == buf@.subrange(from as int, k as int),
        decreases to - k,
    {
        assert(out@.push(buf@[k as int]) =~= buf@.subrange(from as int, k + 1));
        out.push(buf[k]);
        k = k + 1;
    }
    out
}

/// Where the bytes of `b` could still be the snapshot transfer of `x`.
proof fn lemma_snapshot_agrees(b: Seq<u8>, x: Seq<u8>)
    requires
        b.len() >= 1,
        b[0] == 36,
        agree_at(b, 1, dec(x.len()) + crlf()),
        forall|j: int|
            0 <= j < x.len() && 3 + dec(x.len()).len() + j < b.len() ==> b[3 + dec(x.len()).len()
                + j] == #[trigger] x[j],
    ensures
        agree_at(b, 0, snapshot_frame(x)),
{
    let l = dec(x.len()).len() as int;
    let w = snapshot_frame(x);
    assert forall|k: int| 0 <= k < w.len() && 0 <= 0 + k < b.len() implies b[0 + k] == #[trigger] w[k] by {
        if 1 <= k < 3 + l {
            assert(w[k] == (dec(x.len()) + crlf())[k - 1]);
            assert(b[1 + (k - 1)] == (dec(x.len()) + crlf())[k - 1]);
        } else if 3 + l <= k {
            assert(w[k] == x[k - 3 - l]);
            assert(b[3 + l + (k - 3 - l)] == x[k - 3 - l]);
        }
    }
}

/// Reads the snapshot transfer `$<len>\r\n<bytes>` at the start of `buf`.
/// It is malformed only where no transfer could start with the bytes seen so
/// far, and incomplete only where one still could.
pub fn decode_snapshot(buf: &[u8]) -> (r: Piece)
    ensures
        r matches Piece::Item(x, used) ==> x@.len() <= MAX_BULK && starts_with(
            buf@,
            snapshot_frame(x@),
        ) && r.is_item(x@, snapshot_frame(x@)),
        forall|x: Seq<u8>|
            x.len() <= MAX_BULK && #[trigger] starts_with(buf@, snapshot_frame(x)) ==> r.is_item(
                x,
                snapshot_frame(x),
            ),
        r is Malformed ==> forall|x: Seq<u8>|
            x.len() <= MAX_BULK ==> !#[trigger] agree_at(buf@, 0, snapshot_frame(x)),
        r is Incomplete ==> exists|x: Seq<u8>|
            x.len() <= MAX_BULK && #[trigger] agree_at(buf@, 0, snapshot_frame(x)) && buf@.len()
                < snapshot_frame(x).len(),
{
    if buf.len() == 0 || buf[0] != 36 {
        proof {
            assert forall|x: Seq<u8>| x.len() <= MAX_BULK && #[trigger] starts_with(buf@, snapshot_frame(x)) implies false by {
                lemma_snapshot_at(buf@, x);
            }
            if buf.len() == 0 {
                assert(agree_at(buf@, 0, snapshot_frame(Seq::<u8>::empty())));
            } else {
                assert forall|x: Seq<u8>| x.len() <= MAX_BULK implies !#[trigger] agree_at(buf@, 0, snapshot_frame(x)) by {
                    if agree_at(buf@, 0, snapshot_frame(x)) {
                        assert(buf@[0int + 0int] == snapshot_frame(x)[0]);
                    }
                }
            }
        }
        return if buf.len() == 0 { Piece::Incomplete } else { Piece::Malformed };
    }
    let scanned = read_number_line(buf, 1, MAX_BULK);
    proof {
        assert forall|x: Seq<u8>| x.len() <= MAX_BULK && #[trigger] starts_with(buf@, snapshot_frame(x)) implies scanned == Scan::Number(x.len() as u64, (3 + dec(x.len()).len()) as usize)
            && stands_at(buf@, 3 + dec(x.len()).len() as int, x) by {
            lemma_snapshot_at(buf@, x);
        }
        assert forall|x: Seq<u8>| x.len() <= MAX_BULK && #[trigger] agree_at(buf@, 0, snapshot_frame(x)) implies agree_at(buf@, 1, dec(x.len()) + crlf()) by {
            let w = snapshot_frame(x);
            let l = dec(x.len()).len() as int;
            assert(w.subrange(1, 1 + l + 2) =~= dec(x.len()) + crlf());
            lemma_agree_sub(buf@, w, 1, dec(x.len()) + crlf());
        }
    }
    let (len, p) = match scanned {
        Scan::Number(len, p) => (len as usize, p),
        Scan::Short => {
            proof {
                let l0 = choose|l: nat|
                    l <= MAX_BULK && 1 + dec(l).len() + 2 > buf@.len() && #[trigger] agree_at(
                        buf@,
                        1,
                        dec(l) + crlf(),
                    );
                lemma_snapshot_agrees(buf@, zeros(l0));
            }
            return Piece::Incomplete;
        },
        Scan::Bad => {
            proof {
                assert forall|x: Seq<u8>| x.len() <= MAX_BULK implies !#[trigger] agree_at(buf@, 0, snapshot_frame(x)) by {
                    if agree_at(buf@, 0, snapshot_frame(x)) {
                        assert(agree_at(buf@, 1, dec(x.len()) + crlf()));
                    }
                }
            }
            return Piece::Malformed;
        },
    };
    if buf.len() - p < len {
        proof {
            let avail: int = buf@.len() - p;
            let x = buf@.subrange(p as int, buf@.len() as int) + zeros((len - avail) as nat);
            assert(x.len() == len);
            assert(agree_at(buf@, 1, dec(x.len()) + crlf())) by {
                let w = dec(x.len()) + crlf();
                assert forall|k: int| 0 <= k < w.len() && 0 <= 1 + k < buf@.len() implies buf@[1 + k] == #[trigger] w[k] by {
                    if k < dec(x.len()).len() {
                        assert(buf@.subrange(1, 1 + dec(x.len()).len() as int)[k] == buf@[1 + k]);
                    }
                }
            }
            assert forall|j: int| 0 <= j < x.len() && 3 + dec(x.len()).len() + j < buf@.len() implies buf@[3 + dec(x.len()).len() + j] == #[trigger] x[j] by {
                assert(x[j] == buf@.subrange(p as int, buf@.len() as int)[j]);
            }
            lemma_snapshot_agrees(buf@, x);
        }
        return Piece::Incomplete;
    }
    let x = copy_range(buf, p, p + len);
    proof {
        lemma_snapshot_from(buf@, x@);
    }
    Piece::Item(x, p + len)
}

proof fn lemma_snapshot_from(b: Seq<u8>, x: Seq<u8>)
    requires
        b[0] == 36,
        line_number_at(b, 1, x.len()),
        stands_at(b, 3 + dec(x.len()).len() as int, x),
    ensures
        starts_with(b, snapshot_frame(x)),
{
    let w = snapshot_frame(x);
    let l = dec(x.len()).len() as int;
    assert(b.subrange(0, w.len() as int) =~= w) by {
        assert forall|k: int| 0 <= k < w.len() implies b.subrange(0, w.len() as int)[k] == w[k] by {
            if 1 <= k < 1 + l {
                assert(b.subrange(1, 1 + l)[k - 1] == b[k]);
            } else if 3 + l <= k {
                assert(b.subrange(3 + l, 3 + l + x.len())[k - 3 - l] == b[k]);
            }
        }
    }
}

proof fn lemma_snapshot_at(b: Seq<u8>, x: Seq<u8>)
    requires
        starts_with(b, snapshot_frame(x)),
    ensures
        b[0] == 36,
        line_number_at(b, 1, x.len()),
        stands_at(b, 3 + dec(x.len()).len() as int, x),
{
    let w = snapshot_frame(x);
    let l = dec(x.len()).len() as int;
    lemma_piece(b, 0, w);
    assert(w[0] == 36);
    assert(w[1 + l] == 13);
    assert(w[2 + l] == 10);
    assert(b[0 + (1 + l)] == w[1 + l]);
    assert(b[0 + (2 + l)] == w[2 + l]);
    assert(b.subrange(1, 1 + l) =~= dec(x.len())) by {
        assert forall|k: int| 0 <= k < l implies b.subrange(1, 1 + l)[k] == dec(x.len())[k] by {
            assert(w[1 + k] == dec(x.len())[k]);
            assert(b[0 + (1 + k)] == w[1 + k]);
        }
    }
    assert(b.subrange(3 + l, 3 + l + x.len()) =~= x) by {
        assert forall|k: int| 0 <= k < x.len() implies b.subrange(3 + l, 3 + l + x.len())[k] == x[k] by {
            assert(w[3 + l + k] == x[k]);
            assert(b[0 + (3 + l + k)] == w[3 + l + k]);
        }
    }
    lemma_dec_shape(x.len());
}

pub open spec fn no_cr(c: Seq<u8>) -> bool {
    forall|i: int| 0 <= i < c.len() ==> #[trigger] c[i] != 13
}

/// `+<text>\r\n`
pub open spec fn simple_line(c: Seq<u8>) -> Seq<u8> {
    seq![43u8] + c + crlf()
}

/// Reads the simple-string reply at the start of `buf`.
pub fn decode_simple(buf: &[u8]) -> (r: Piece)
    ensures
        r matches Piece::Item(c, used) ==> no_cr(c@) && starts_with(buf@, simple_line(c@)) && r.is_item(
            c@,
            simple_line(c@),
        ),
        forall|c: Seq<u8>| no_cr(c) && #[trigger] starts_with(buf@, simple_line(c)) ==> r.is_item(
            c,
            simple_line(c),
        ),
        r is Malformed ==> forall|c: Seq<u8>| no_cr(c) ==> !#[trigger] agree_at(buf@, 0, simple_line(c)),
        r is Incomplete ==> exists|c: Seq<u8>|
            no_cr(c) && #[trigger] agree_at(buf@, 0, simple_line(c)) && buf@.len() < simple_line(c).len(),
{
    if buf.len() == 0 {
        proof {
            assert forall|c: Seq<u8>| no_cr(c) && starts_with(buf@, simple_line(c)) implies false by {
                assert(buf@.len() >= simple_line(c).len());
            }
            assert(agree_at(buf@, 0, simple_line(Seq::<u8>::empty())));
        }
        return Piece::Incomplete;
    }
    if buf[0] != 43 {
        proof {
            assert forall|c: Seq<u8>| no_cr(c) implies !#[trigger] agree_at(buf@, 0, simple_line(c)) by {
                if agree_at(buf@, 0, simple_line(c)) {
                    assert(buf@[0int + 0int] == simple_line(c)[0]);
                }
            }
            assert forall|c: Seq<u8>| no_cr(c) && starts_with(buf@, simple_line(c)) implies false by {
                lemma_piece(buf@, 0, simple_line(c));
                assert(simple_line(c)[0] == 43);
                assert(buf@[0int + 0int] == simple_line(c)[0]);
            }
        }
        return Piece::Malformed;
    }
    let mut i: usize = 1;
    while i < buf.len() && buf[i] != 13
        invariant
            1 <= i <= buf@.len(),
            forall|k: int| 1 <= k < i ==> buf@[k] != 13,
        decreases buf@.len() - i,
    {
        i = i + 1;
    }
    proof {
        assert forall|c: Seq<u8>| no_cr(c) && starts_with(buf@, simple_line(c)) implies i == c.len() + 1 && i + 1 < buf@.len() && buf@[i + 1] == 10 by {
            let w = simple_line(c);
            lemma_piece(buf@, 0, w);
            assert(w[c.len() as int + 1] == 13);
            assert(w[c.len() as int + 2] == 10);
            if i < c.len() + 1 {
                assert(w[i as int] == c[i - 1]);
                assert(buf@[0 + i] == w[i as int]);
            }
            assert(buf@[0 + (c.len() as int + 1)] == w[c.len() as int + 1]);
            assert(buf@[0 + (c.len() as int + 2)] == w[c.len() as int + 2]);
        }
    }
    if i == buf.len() || i + 1 == buf.len() {
        proof {
            let c = buf@.subrange(1, i as int);
            let w = simple_line(c);
            assert(no_cr(c)) by {
                assert forall|k: int| 0 <= k < c.len() implies #[trigger] c[k] != 13 by {
                    assert(c[k] == buf@[k + 1]);
                }
            }
            assert(agree_at(buf@, 0, w)) by {
                assert forall|k: int| 0 <= k < w.len() && 0 <= 0 + k < buf@.len() implies buf@[0 + k] == #[trigger] w[k] by {
                    if 1 <= k < i {
                        assert(w[k] == c[k - 1]);
                    }
                }
            }
        }
        return Piece::Incomplete;
    }
    if buf[i + 1] != 10 {
        proof {
            assert forall|c: Seq<u8>| no_cr(c) implies !#[trigger] agree_at(buf@, 0, simple_line(c)) by {
                if agree_at(buf@, 0, simple_line(c)) {
                    let w = simple_line(c);
                    assert(w[c.len() as int + 1] == 13);
                    assert(w[c.len() as int + 2] == 10);
                    if i < c.len() + 1 {
                        assert(w[i as int] == c[i - 1]);
                        assert(buf@[0 + i] == w[i as int]);
                    } else if i > c.len() + 1 {
                        assert(buf@[0 + (c.len() as int + 1)] == w[c.len() as int + 1]);
                    } else {
                        assert(buf@[0 + (c.len() as int + 2)] == w[c.len() as int + 2]);
                    }
                }
            }
        }
        return Piece::Malformed;
    }
    let c = copy_range(buf, 1, i);
    proof {
        let w = simple_line(c@);
        assert(buf@.subrange(0, w.len() as int) =~= w);
        assert forall|d: Seq<u8>| no_cr(d) && starts_with(buf@, simple_line(d)) implies d == c@ by {
            let v = simple_line(d);
            lemma_piece(buf@, 0, v);
            assert(d =~= c@) by {
                assert forall|k: int| 0 <= k < d.len() implies d[k] == c@[k] by {
                    assert(v[k + 1] == d[k]);
                    assert(buf@[0 + (k + 1)] == v[k + 1]);
                }
            }
        }
    }
    Piece::Item(c, i + 2)
}

/// The bytes of a text.
pub fn text_bytes(t: &str) -> (r: Vec<u8>)
    ensures
        r@ == t.spec_bytes(),
{
    let mut out: Vec<u8> = Vec::new();
    append_bytes(&mut out, t.as_bytes());
    out
}

} // verus!
