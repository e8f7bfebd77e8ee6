//! The mathematical model of the wire format: escaping, big-endian layout and
//! lexicographic order of byte strings, with the facts the codec relies on.
use vstd::prelude::*;

verus! {

/// Lexicographic strict order on byte strings, as `<` orders `[u8]`.
pub open spec fn lex_lt(a: Seq<u8>, b: Seq<u8>) -> bool
    decreases a.len(),
{
    if a.len() == 0 {
        b.len() > 0
    } else if b.len() == 0 {
        false
    } else if a[0] != b[0] {
        a[0] < b[0]
    } else {
        lex_lt(a.drop_first(), b.drop_first())
    }
}

/// Lexicographic strict order on sequences of items ordered by `lt`.
pub open spec fn seq_lt<T>(xs: Seq<T>, ys: Seq<T>, lt: spec_fn(T, T) -> bool) -> bool
    decreases xs.len(),
{
    if xs.len() == 0 {
        ys.len() > 0
    } else if ys.len() == 0 {
        false
    } else if xs[0] != ys[0] {
        lt(xs[0], ys[0])
    } else {
        seq_lt(xs.drop_first(), ys.drop_first(), lt)
    }
}

/// Two byte strings that differ at a position both of them have.
pub open spec fn diverge(a: Seq<u8>, b: Seq<u8>) -> bool
    decreases a.len(),
{
    a.len() > 0 && b.len() > 0 && (a[0] != b[0] || diverge(a.drop_first(), b.drop_first()))
}

/// The form of one byte inside a variable-length sequence: bytes that could be
/// read as a terminator or an escape get the escape prefix.
pub open spec fn escape_byte(b: u8) -> Seq<u8> {
    if b <= 1 {
        seq![1u8, b]
    } else {
        seq![b]
    }
}

/// The escaped body of a byte sequence, without its terminator.
pub open spec fn escape(s: Seq<u8>) -> Seq<u8>
    decreases s.len(),
{
    if s.len() == 0 {
        Seq::empty()
    } else {
        escape(s.drop_last()) + escape_byte(s.last())
    }
}

/// The full encoding of a variable-length byte sequence: escaped body, then a lone zero.
pub open spec fn terminated(s: Seq<u8>) -> Seq<u8> {
    escape(s).push(0u8)
}

/// Reads one escaped, terminated sequence from the front of `s`: the unescaped
/// contents and the number of bytes taken, terminator included; `None` when `s`
/// ends first.
pub open spec fn unescape(s: Seq<u8>) -> Option<(Seq<u8>, nat)>
    decreases s.len(),
{
    if s.len() == 0 {
        None
    } else if s[0] == 0 {
        Some((Seq::empty(), 1nat))
    } else if s[0] == 1 {
        if s.len() < 2 {
            None
        } else {
            match unescape(s.skip(2)) {
                Some((v, n)) => Some((seq![s[1]] + v, n + 2)),
                None => None,
            }
        }
    } else {
        match unescape(s.skip(1)) {
            Some((v, n)) => Some((seq![s[0]] + v, n + 1)),
            None => None,
        }
    }
}

/// The logical contents of an escaped body without terminator: each escape
/// prefix is dropped and the byte after it kept; a trailing lone prefix is dropped.
pub open spec fn unescape_body(s: Seq<u8>) -> Seq<u8>
    decreases s.len(),
{
    if s.len() == 0 {
        Seq::empty()
    } else if s[0] == 1 {
        if s.len() < 2 {
            Seq::empty()
        } else {
            seq![s[1]] + unescape_body(s.skip(2))
        }
    } else {
        seq![s[0]] + unescape_body(s.skip(1))
    }
}

/// The same as `unescape_body`, over characters, `'\x01'` being the escape prefix.
pub open spec fn unescape_chars(s: Seq<char>) -> Seq<char>
    decreases s.len(),
{
    if s.len() == 0 {
        Seq::empty()
    } else if s[0] == '\x01' {
        if s.len() < 2 {
            Seq::empty()
        } else {
            seq![s[1]] + unescape_chars(s.skip(2))
        }
    } else {
        seq![s[0]] + unescape_chars(s.skip(1))
    }
}

/// The length of the run at the front of `s` that holds no byte `<= 1`.
pub open spec fn plain_len(s: Seq<u8>) -> nat
    decreases s.len(),
{
    if s.len() == 0 || s[0] <= 1 {
        0
    } else {
        1 + plain_len(s.skip(1))
    }
}

/// Whether the escaped sequence at the front of `s` holds no escape before its
/// terminator, so that its contents can be handed out in place.
pub open spec fn borrowable(s: Seq<u8>) -> bool {
    plain_len(s) < s.len() && s[plain_len(s) as int] == 0
}

/// `256` to the power `n`.
pub open spec fn pow256(n: nat) -> nat
    decreases n,
{
    if n == 0 {
        1
    } else {
        256 * pow256((n - 1) as nat)
    }
}

/// The `n` big-endian bytes of `x` (of `x` modulo `256^n`).
pub open spec fn be(x: nat, n: nat) -> Seq<u8>
    decreases n,
{
    if n == 0 {
        Seq::empty()
    } else {
        be(x / 256, (n - 1) as nat).push((x % 256) as u8)
    }
}

/// The number that big-endian bytes stand for.
pub open spec fn from_be(s: Seq<u8>) -> nat
    decreases s.len(),
{
    if s.len() == 0 {
        0
    } else {
        from_be(s.drop_last()) * 256 + s.last() as nat
    }
}

/// The encoding of a signed integer of `n` bytes: its value shifted by half the
/// range (the sign bit flipped), big-endian.
pub open spec fn signed_be(x: int, n: nat) -> Seq<u8> {
    be((x + pow256(n) / 2) as nat, n)
}

/// The bytes a fixed-width write appends: `b`, with an escape prefix in front when
/// an escape is pending and its first byte is `<= 1`.
pub open spec fn fixed_out(pending: bool, b: Seq<u8>) -> Seq<u8> {
    if pending && b.len() > 0 && b[0] <= 1 {
        seq![1u8] + b
    } else {
        b
    }
}

/// Whether an escape is still pending after a fixed-width write of `n` bytes.
pub open spec fn fixed_pending_after(pending: bool, n: nat) -> bool {
    if n == 0 {
        pending
    } else {
        false
    }
}

/// The number of bytes a fixed-width read of `n` bytes skips before its data:
/// one when an escape is expected and the next byte is the escape prefix.
pub open spec fn fixed_skip(s: Seq<u8>, expect: bool) -> nat {
    if expect && s.len() > 0 && s[0] == 1 {
        1
    } else {
        0
    }
}

/// Whether a fixed-width read of `n` bytes succeeds on `s`.
pub open spec fn fixed_ok(s: Seq<u8>, expect: bool, n: nat) -> bool {
    fixed_skip(s, expect) + n <= s.len() && !(expect && s.len() == 0)
}

/// The data a fixed-width read of `n` bytes returns.
pub open spec fn fixed_data(s: Seq<u8>, expect: bool, n: nat) -> Seq<u8> {
    s.subrange(fixed_skip(s, expect) as int, (fixed_skip(s, expect) + n) as int)
}

/// Where a fixed-width read of `n` bytes leaves off.
pub open spec fn fixed_end(s: Seq<u8>, expect: bool, n: nat) -> nat {
    fixed_skip(s, expect) + n
}

/// The unsigned number a fixed-width read of `n` bytes returns.
pub open spec fn fixed_value(s: Seq<u8>, expect: bool, n: nat) -> nat {
    from_be(fixed_data(s, expect, n))
}

/// The signed number a fixed-width read of `n` bytes returns: the unsigned one
/// shifted back by half the range.
pub open spec fn fixed_signed(s: Seq<u8>, expect: bool, n: nat) -> int {
    fixed_value(s, expect, n) - pow256(n) / 2
}

// ---------------------------------------------------------------------------
// Facts about lexicographic order.

/// No string sorts before itself.
pub proof fn lemma_lex_irreflexive(a: Seq<u8>)
    ensures
        !lex_lt(a, a),
    decreases a.len(),
{
    if a.len() > 0 {
        lemma_lex_irreflexive(a.drop_first());
    }
}

/// Of two strings at most one sorts before the other.
pub proof fn lemma_lex_asymmetric(a: Seq<u8>, b: Seq<u8>)
    requires
        lex_lt(a, b),
    ensures
        !lex_lt(b, a),
    decreases a.len(),
{
    if a.len() > 0 && b.len() > 0 && a[0] == b[0] {
        lemma_lex_asymmetric(a.drop_first(), b.drop_first());
    }
}

/// A common prefix does not change how two strings compare.
pub proof fn lemma_lex_common_prefix(p: Seq<u8>, a: Seq<u8>, b: Seq<u8>)
    ensures
        lex_lt(p + a, p + b) == lex_lt(a, b),
    decreases p.len(),
{
    if p.len() > 0 {
        assert((p + a).drop_first() =~= p.drop_first() + a);
        assert((p + b).drop_first() =~= p.drop_first() + b);
        lemma_lex_common_prefix(p.drop_first(), a, b);
    } else {
        assert(p + a =~= a);
        assert(p + b =~= b);
    }
}

/// Strings that differ where both have bytes compare the same whatever follows
/// each of them, and one of them sorts first.
pub proof fn lemma_diverge_append(a: Seq<u8>, b: Seq<u8>, x: Seq<u8>, y: Seq<u8>)
    requires
        diverge(a, b),
    ensures
        diverge(a + x, b + y),
        lex_lt(a + x, b + y) == lex_lt(a, b),
        lex_lt(a, b) || lex_lt(b, a),
    decreases a.len(),
{
    assert((a + x)[0] == a[0]);
    assert((b + y)[0] == b[0]);
    if a[0] == b[0] {
        assert((a + x).drop_first() =~= a.drop_first() + x);
        assert((b + y).drop_first() =~= b.drop_first() + y);
        lemma_diverge_append(a.drop_first(), b.drop_first(), x, y);
    }
}

/// Equal-length strings keep their order whatever follows each of them.
pub proof fn lemma_lex_same_len_append(a: Seq<u8>, b: Seq<u8>, x: Seq<u8>, y: Seq<u8>)
    requires
        a.len() == b.len(),
        lex_lt(a, b),
    ensures
        lex_lt(a + x, b + y),
    decreases a.len(),
{
    assert((a + x)[0] == a[0]);
    assert((b + y)[0] == b[0]);
    if a[0] == b[0] {
        assert((a + x).drop_first() =~= a.drop_first() + x);
        assert((b + y).drop_first() =~= b.drop_first() + y);
        lemma_lex_same_len_append(a.drop_first(), b.drop_first(), x, y);
    }
}

// ---------------------------------------------------------------------------
// Framed sequences: each item encoded in turn, then a lone zero.

/// The concatenated encodings of the items of `xs`.
pub open spec fn flat<T>(xs: Seq<T>, enc: spec_fn(T) -> Seq<u8>) -> Seq<u8>
    decreases xs.len(),
{
    if xs.len() == 0 {
        Seq::empty()
    } else {
        flat(xs.drop_last(), enc) + enc(xs.last())
    }
}

/// An item encoding that never starts with a zero byte, and that tells any two
/// distinct items apart at a position both encodings have, in the items' order.
pub open spec fn ordered_code<T>(enc: spec_fn(T) -> Seq<u8>, lt: spec_fn(T, T) -> bool) -> bool {
    &&& forall|x: T| #[trigger] enc(x).len() > 0 && enc(x)[0] > 0
    &&& forall|x: T, y: T|
        #![trigger enc(x), enc(y)]
        x != y ==> diverge(enc(x), enc(y)) && (lt(x, y) == lex_lt(enc(x), enc(y)))
}

/// The concatenated encodings, taken from the front.
pub proof fn lemma_flat_front<T>(xs: Seq<T>, enc: spec_fn(T) -> Seq<u8>)
    requires
        xs.len() > 0,
    ensures
        flat(xs, enc) =~= enc(xs[0]) + flat(xs.drop_first(), enc),
    decreases xs.len(),
{
    if xs.len() == 1 {
        assert(flat(xs.drop_last(), enc) =~= Seq::<u8>::empty());
        assert(flat(xs.drop_first(), enc) =~= Seq::<u8>::empty());
        assert(xs.last() == xs[0]);
    } else {
        lemma_flat_front(xs.drop_last(), enc);
        assert(xs.drop_last().drop_first() =~= xs.drop_first().drop_last());
        assert(xs.drop_first().last() == xs.last());
        assert(xs.drop_last()[0] == xs[0]);
        assert(flat(xs.drop_first(), enc) == flat(xs.drop_first().drop_last(), enc) + enc(
            xs.drop_first().last(),
        ));
    }
}

/// Terminated concatenation keeps the lexicographic order of the items.
pub proof fn lemma_framed_order<T>(
    xs: Seq<T>,
    ys: Seq<T>,
    enc: spec_fn(T) -> Seq<u8>,
    lt: spec_fn(T, T) -> bool,
)
    requires
        ordered_code(enc, lt),
    ensures
        lex_lt(flat(xs, enc).push(0u8), flat(ys, enc).push(0u8)) == seq_lt(xs, ys, lt),
    decreases xs.len(),
{
    let fx = flat(xs, enc).push(0u8);
    let fy = flat(ys, enc).push(0u8);
    if xs.len() == 0 {
        assert(fx =~= seq![0u8]);
        if ys.len() > 0 {
            lemma_flat_front(ys, enc);
            let e = enc(ys[0]);
            assert(fy =~= e + flat(ys.drop_first(), enc).push(0u8));
            assert(fy[0] == e[0]);
        } else {
            assert(fy =~= seq![0u8]);
            lemma_lex_irreflexive(fx);
        }
    } else {
        lemma_flat_front(xs, enc);
        let ex = enc(xs[0]);
        let rx = flat(xs.drop_first(), enc).push(0u8);
        assert(fx =~= ex + rx);
        assert(fx[0] == ex[0]);
        if ys.len() == 0 {
            assert(fy =~= seq![0u8]);
        } else {
            lemma_flat_front(ys, enc);
            let ey = enc(ys[0]);
            let ry = flat(ys.drop_first(), enc).push(0u8);
            assert(fy =~= ey + ry);
            if xs[0] == ys[0] {
                lemma_lex_common_prefix(ex, rx, ry);
                lemma_framed_order(xs.drop_first(), ys.drop_first(), enc, lt);
            } else {
                lemma_diverge_append(ex, ey, rx, ry);
            }
        }
    }
}

/// `seq_lt` over bytes in their numeric order is `lex_lt`.
pub proof fn lemma_seq_lt_bytes(a: Seq<u8>, b: Seq<u8>)
    ensures
        seq_lt(a, b, |x: u8, y: u8| x < y) == lex_lt(a, b),
    decreases a.len(),
{
    if a.len() > 0 && b.len() > 0 && a[0] == b[0] {
        lemma_seq_lt_bytes(a.drop_first(), b.drop_first());
    }
}

// ---------------------------------------------------------------------------
// Escaping.

/// Escaping works byte by byte.
pub proof fn lemma_escape_append(a: Seq<u8>, b: Seq<u8>)
    ensures
        escape(a + b) =~= escape(a) + escape(b),
    decreases b.len(),
{
    if b.len() == 0 {
        assert(a + b =~= a);
    } else {
        assert((a + b).drop_last() =~= a + b.drop_last());
        assert((a + b).last() == b.last());
        lemma_escape_append(a, b.drop_last());
    }
}

/// The escaped form of a single byte.
pub proof fn lemma_escape_single(c: u8)
    ensures
        escape(seq![c]) == escape_byte(c),
{
    assert(seq![c].drop_last() =~= Seq::<u8>::empty());
    assert(escape(Seq::<u8>::empty()) =~= Seq::<u8>::empty());
    assert(seq![c].last() == c);
    assert(escape(Seq::<u8>::empty()) + escape_byte(c) =~= escape_byte(c));
}

/// Escaping is the concatenated escaped forms of the bytes.
pub proof fn lemma_escape_is_flat(s: Seq<u8>, f: spec_fn(u8) -> Seq<u8>)
    requires
        forall|b: u8| #[trigger] f(b) == escape_byte(b),
    ensures
        escape(s) == flat(s, f),
    decreases s.len(),
{
    if s.len() > 0 {
        lemma_escape_is_flat(s.drop_last(), f);
    }
}

/// Escaped bytes are an ordered code in the bytes' numeric order.
pub proof fn lemma_escape_byte_code(f: spec_fn(u8) -> Seq<u8>)
    requires
        forall|b: u8| #[trigger] f(b) == escape_byte(b),
    ensures
        ordered_code(f, |x: u8, y: u8| x < y),
{
    assert forall|x: u8, y: u8| x != y implies diverge(#[trigger] f(x), #[trigger] f(y)) && ((x
        < y) == lex_lt(f(x), f(y))) by {
        let a = f(x);
        let b = f(y);
        if x <= 1 && y <= 1 {
            assert(a.drop_first() =~= seq![x]);
            assert(b.drop_first() =~= seq![y]);
            assert(diverge(a.drop_first(), b.drop_first()));
            assert(lex_lt(a.drop_first(), b.drop_first()) == (x < y));
        }
    }
}

/// An escaped, terminated sequence is read back whole, whatever follows it.
pub proof fn lemma_unescape_terminated(s: Seq<u8>, rest: Seq<u8>)
    ensures
        unescape(terminated(s) + rest) == Some((s, escape(s).len() + 1)),
    decreases s.len(),
{
    let t = terminated(s) + rest;
    if s.len() == 0 {
        assert(t[0] == 0);
    } else {
        let b = s[0];
        let tail = s.drop_first();
        lemma_escape_append(seq![b], tail);
        assert(seq![b] + tail =~= s);
        assert(escape(seq![b]) =~= escape_byte(b)) by {
            assert(seq![b].drop_last() =~= Seq::<u8>::empty());
            assert(escape(Seq::<u8>::empty()) =~= Seq::<u8>::empty());
            assert(seq![b].last() == b);
            assert(escape(Seq::<u8>::empty()) + escape_byte(b) =~= escape_byte(b));
        }
        lemma_unescape_terminated(tail, rest);
        let k = escape_byte(b).len();
        assert(t =~= escape_byte(b) + (terminated(tail) + rest));
        assert(t.skip(k as int) =~= terminated(tail) + rest);
        assert(seq![b] + tail =~= s);
    }
}

/// The contents of an escaped sequence are the body unescaped.
pub proof fn lemma_unescape_body(s: Seq<u8>)
    requires
        unescape(s) is Some,
    ensures
        ({
            let (v, n) = unescape(s)->0;
            &&& 1 <= n <= s.len()
            &&& s[n - 1] == 0
            &&& v == unescape_body(s.take(n - 1))
        }),
    decreases s.len(),
{
    if s[0] == 0 {
        assert(s.take(0) =~= Seq::<u8>::empty());
    } else if s[0] == 1 {
        lemma_unescape_body(s.skip(2));
        let (v, n) = unescape(s.skip(2))->0;
        let body = s.take((n + 1) as int);
        assert(body.skip(2) =~= s.skip(2).take(n - 1));
    } else {
        lemma_unescape_body(s.skip(1));
        let (v, n) = unescape(s.skip(1))->0;
        let body = s.take(n as int);
        assert(body.skip(1) =~= s.skip(1).take(n - 1));
    }
}

/// The number of bytes a read took, or zero.
pub open spec fn taken(r: Option<(Seq<u8>, nat)>) -> nat {
    match r {
        Some((_, n)) => n,
        None => 0,
    }
}

/// `r` with `acc` put in front of its contents and `k` added to its length.
pub open spec fn prepend(acc: Seq<u8>, k: nat, r: Option<(Seq<u8>, nat)>) -> Option<(Seq<u8>, nat)> {
    match r {
        Some((v, n)) => Some((acc + v, n + k)),
        None => None,
    }
}

/// Putting two runs in front, one after the other, is putting them in front at once.
pub proof fn lemma_prepend_step(acc: Seq<u8>, i: nat, k: nat, b: u8, r: Option<(Seq<u8>, nat)>)
    ensures
        prepend(acc, i, prepend(seq![b], k, r)) == prepend(acc.push(b), i + k, r),
{
    if let Some((v, n)) = r {
        assert(acc + (seq![b] + v) =~= acc.push(b) + v);
    }
}

/// One step of reading an escaped sequence, at position `i` of `s`.
pub proof fn lemma_unescape_at(s: Seq<u8>, i: int)
    requires
        0 <= i < s.len(),
    ensures
        s[i] == 0 ==> unescape(s.skip(i)) == Some((Seq::<u8>::empty(), 1nat)),
        s[i] == 1 && i + 1 >= s.len() ==> unescape(s.skip(i)) is None,
        s[i] == 1 && i + 1 < s.len() ==> unescape(s.skip(i)) == prepend(
            seq![s[i + 1]],
            2,
            unescape(s.skip(i + 2)),
        ),
        s[i] > 1 ==> unescape(s.skip(i)) == prepend(seq![s[i]], 1, unescape(s.skip(i + 1))),
{
    let t = s.skip(i);
    assert(t[0] == s[i]);
    if s[i] == 1 && i + 1 < s.len() {
        assert(t.skip(2) =~= s.skip(i + 2));
        assert(t[1] == s[i + 1]);
    }
    if s[i] > 1 {
        assert(t.skip(1) =~= s.skip(i + 1));
    }
}

/// What an escaped sequence holds does not depend on what follows it.
pub proof fn lemma_unescape_prefix(s: Seq<u8>, m: int)
    requires
        unescape(s) is Some,
        taken(unescape(s)) <= m <= s.len(),
    ensures
        unescape(s.take(m)) == unescape(s),
    decreases s.len(),
{
    let t = s.take(m);
    assert(t[0] == s[0]);
    if s[0] == 1 {
        assert(t[1] == s[1]);
        assert(t.skip(2) =~= s.skip(2).take(m - 2));
        lemma_unescape_prefix(s.skip(2), m - 2);
    } else if s[0] != 0 {
        assert(t.skip(1) =~= s.skip(1).take(m - 1));
        lemma_unescape_prefix(s.skip(1), m - 1);
    }
}

/// A run of bytes `> 1` is read as it stands.
pub proof fn lemma_unescape_plain(s: Seq<u8>, i: int)
    requires
        0 <= i <= s.len(),
        forall|j: int| 0 <= j < i ==> s[j] > 1,
    ensures
        unescape(s) == prepend(s.take(i), i as nat, unescape(s.skip(i))),
        plain_len(s) == i + plain_len(s.skip(i)),
    decreases i,
{
    if i == 0 {
        assert(s.skip(0) =~= s);
        assert(s.take(0) =~= Seq::<u8>::empty());
        if let Some((v, n)) = unescape(s) {
            assert(Seq::<u8>::empty() + v =~= v);
        }
    } else {
        lemma_unescape_plain(s.skip(1), i - 1);
        assert(s.skip(1).skip(i - 1) =~= s.skip(i));
        assert(seq![s[0]] + s.skip(1).take(i - 1) =~= s.take(i));
        if let Some((v, n)) = unescape(s.skip(i)) {
            assert(seq![s[0]] + (s.skip(1).take(i - 1) + v) =~= s.take(i) + v);
        }
    }
}

// ---------------------------------------------------------------------------
// Big-endian integers.

/// Powers of 256 are positive.
pub proof fn lemma_pow256_pos(n: nat)
    ensures
        pow256(n) >= 1,
    decreases n,
{
    if n > 0 {
        lemma_pow256_pos((n - 1) as nat);
    }
}

/// Big-endian layout of `n` bytes has `n` bytes.
pub proof fn lemma_be_len(x: nat, n: nat)
    ensures
        be(x, n).len() == n,
    decreases n,
{
    if n > 0 {
        lemma_be_len(x / 256, (n - 1) as nat);
    }
}

/// A number below `256^n` is read back from its `n` big-endian bytes.
pub proof fn lemma_from_be_be(x: nat, n: nat)
    requires
        x < pow256(n),
    ensures
        from_be(be(x, n)) == x,
    decreases n,
{
    if n > 0 {
        let m = (n - 1) as nat;
        assert(x / 256 < pow256(m)) by (nonlinear_arith)
            requires
                x < pow256(n),
                pow256(n) == 256 * pow256(m),
        ;
        lemma_from_be_be(x / 256, m);
        let s = be(x, n);
        assert(s.drop_last() =~= be(x / 256, m));
    }
}

/// The number `n` big-endian bytes stand for is below `256^n`.
pub proof fn lemma_from_be_bound(s: Seq<u8>)
    ensures
        from_be(s) < pow256(s.len()),
    decreases s.len(),
{
    if s.len() > 0 {
        let p = s.drop_last();
        lemma_from_be_bound(p);
        let a = from_be(p);
        let q = pow256(p.len());
        assert(a * 256 + s.last() < 256 * q) by (nonlinear_arith)
            requires
                a < q,
                s.last() < 256,
        ;
    }
}

/// Bytes are laid out again from the number they stand for.
pub proof fn lemma_be_from_be(s: Seq<u8>)
    ensures
        be(from_be(s), s.len()) =~= s,
    decreases s.len(),
{
    if s.len() > 0 {
        let p = s.drop_last();
        let x = from_be(s);
        lemma_be_from_be(p);
        assert(x / 256 == from_be(p));
        assert(x % 256 == s.last());
    }
}

/// One big-endian byte is the byte itself.
pub proof fn lemma_be_one(b: u8)
    ensures
        be(b as nat, 1) =~= seq![b],
        from_be(seq![b]) == b,
{
    assert(be((b as nat) / 256, 0) =~= Seq::<u8>::empty());
    assert(seq![b].drop_last() =~= Seq::<u8>::empty());
    assert(from_be(Seq::<u8>::empty()) == 0);
    assert(from_be(seq![b]) == from_be(seq![b].drop_last()) * 256 + b);
}

/// Big-endian layout orders numbers of the same width as the numbers.
pub proof fn lemma_be_order(x: nat, y: nat, n: nat)
    requires
        x < pow256(n),
        y < pow256(n),
    ensures
        lex_lt(be(x, n), be(y, n)) == (x < y),
    decreases n,
{
    if n == 0 {
        assert(be(x, n) =~= Seq::<u8>::empty());
        assert(be(y, n) =~= Seq::<u8>::empty());
    } else {
        let m = (n - 1) as nat;
        assert(x / 256 < pow256(m) && y / 256 < pow256(m)) by (nonlinear_arith)
            requires
                x < pow256(n),
                y < pow256(n),
                pow256(n) == 256 * pow256(m),
        ;
        lemma_be_order(x / 256, y / 256, m);
        lemma_be_len(x / 256, m);
        lemma_be_len(y / 256, m);
        let hx = be(x / 256, m);
        let hy = be(y / 256, m);
        let lx = seq![(x % 256) as u8];
        let ly = seq![(y % 256) as u8];
        assert(be(x, n) =~= hx + lx);
        assert(be(y, n) =~= hy + ly);
        if x / 256 < y / 256 {
            lemma_lex_same_len_append(hx, hy, lx, ly);
        } else if y / 256 < x / 256 {
            lemma_be_order(y / 256, x / 256, m);
            lemma_lex_same_len_append(hy, hx, ly, lx);
            lemma_lex_asymmetric(hy + ly, hx + lx);
        } else {
            lemma_lex_common_prefix(hx, lx, ly);
            assert((x < y) == (x % 256 < y % 256)) by (nonlinear_arith)
                requires
                    x / 256 == y / 256,
            ;
            assert(lx.drop_first() =~= Seq::<u8>::empty());
            assert(ly.drop_first() =~= Seq::<u8>::empty());
            lemma_lex_irreflexive(Seq::<u8>::empty());
        }
    }
}

} // verus!
