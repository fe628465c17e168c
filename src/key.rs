use vstd::prelude::*;
use vstd::utf8::encode_utf8;

use crate::bytes::{
    lemma_lex_common_prefix, lemma_lex_diverged, lemma_lex_irreflexive, lemma_lex_total, lex_lt,
    starts_with,
};
use crate::error::DbErr;

verus! {

/// Tag bytes: their order is the order between kinds of values.
pub const TAG_NULL: u8 = 0x05;
pub const TAG_INT64: u8 = 0x10;
pub const TAG_STRING: u8 = 0x20;
pub const TAG_BOOLEAN: u8 = 0x50;

/// 2^63: added to a signed 64-bit integer, it maps the signed order onto
/// the unsigned one.
pub const SIGN_OFFSET: u64 = 0x8000_0000_0000_0000;

pub open spec fn pow256(n: nat) -> nat
    decreases n,
{
    if n == 0 {
        1
    } else {
        256 * pow256((n - 1) as nat)
    }
}

/// The `n` low-order base-256 digits of `u`, most significant first.
pub open spec fn be_bytes(u: nat, n: nat) -> Seq<u8>
    decreases n,
{
    if n == 0 {
        Seq::empty()
    } else {
        let p = pow256((n - 1) as nat);
        seq![((u / p) % 256) as u8] + be_bytes(u % p, (n - 1) as nat)
    }
}

pub proof fn lemma_pow256_positive(n: nat)
    ensures
        pow256(n) > 0,
    decreases n,
{
    if n > 0 {
        lemma_pow256_positive((n - 1) as nat);
    }
}

pub proof fn lemma_be_bytes_len(u: nat, n: nat)
    ensures
        be_bytes(u, n).len() == n,
    decreases n,
{
    if n > 0 {
        let p = pow256((n - 1) as nat);
        lemma_pow256_positive((n - 1) as nat);
        lemma_be_bytes_len(u % p, (n - 1) as nat);
        assert(be_bytes(u, n).drop_first() =~= be_bytes(u % p, (n - 1) as nat));
    }
}

pub proof fn lemma_pow256_eight()
    ensures
        pow256(7) == 0x0100_0000_0000_0000,
        pow256(8) == 0x1_0000_0000_0000_0000,
{
    reveal_with_fuel(pow256, 9);
}

/// Big-endian digits compare as the numbers do.
pub proof fn lemma_be_bytes_order(u: nat, v: nat, n: nat)
    requires
        u < pow256(n),
        v < pow256(n),
    ensures
        lex_lt(be_bytes(u, n), be_bytes(v, n)) == (u < v),
    decreases n,
{
    if n == 0 {
    } else {
        let m = (n - 1) as nat;
        let p = pow256(m);
        lemma_pow256_positive(m);
        let hu = u / p;
        let hv = v / p;
        let ru = u % p;
        let rv = v % p;
        assert(u == hu * p + ru && 0 <= ru < p) by {
            vstd::arithmetic::div_mod::lemma_fundamental_div_mod(u as int, p as int);
        }
        assert(v == hv * p + rv && 0 <= rv < p) by {
            vstd::arithmetic::div_mod::lemma_fundamental_div_mod(v as int, p as int);
        }
        assert(hu < 256) by (nonlinear_arith)
            requires u == hu * p + ru, 0 <= ru, u < 256 * p, p > 0;
        assert(hv < 256) by (nonlinear_arith)
            requires v == hv * p + rv, 0 <= rv, v < 256 * p, p > 0;
        let bu = be_bytes(u, n);
        let bv = be_bytes(v, n);
        assert(bu[0] == hu as u8 && bv[0] == hv as u8);
        assert(bu.drop_first() =~= be_bytes(ru, m));
        assert(bv.drop_first() =~= be_bytes(rv, m));
        if hu < hv {
            assert(u < v) by (nonlinear_arith)
                requires u == hu * p + ru, v == hv * p + rv, ru < p, 0 <= rv, hu < hv;
        } else if hv < hu {
            assert(v < u) by (nonlinear_arith)
                requires u == hu * p + ru, v == hv * p + rv, rv < p, 0 <= ru, hv < hu;
        } else {
            lemma_be_bytes_order(ru, rv, m);
        }
    }
}

/// A document value that can stand in a key.
pub enum KeyValue {
    Null,
    Boolean(bool),
    Int64(i64),
    String(String),
}

/// The mathematical form of a [`KeyValue`]: a string is its UTF-8 bytes.
pub enum KeyModel {
    Null,
    Boolean(bool),
    Int64(int),
    Str(Seq<u8>),
}

impl View for KeyValue {
    type V = KeyModel;

    open spec fn view(&self) -> KeyModel {
        match self {
            KeyValue::Null => KeyModel::Null,
            KeyValue::Boolean(b) => KeyModel::Boolean(*b),
            KeyValue::Int64(i) => KeyModel::Int64(*i as int),
            KeyValue::String(s) => KeyModel::Str(encode_utf8(s@)),
        }
    }
}

pub open spec fn no_zero_byte(s: Seq<u8>) -> bool {
    forall|i: int| 0 <= i < s.len() ==> s[i] != 0
}

/// A value has a key encoding unless it is a string holding a zero byte,
/// which would be taken for the string's terminator.
pub open spec fn valid_key(v: KeyModel) -> bool {
    match v {
        KeyModel::Str(s) => no_zero_byte(s),
        KeyModel::Int64(i) => i64::MIN <= i <= i64::MAX,
        _ => true,
    }
}

pub open spec fn kind_tag(v: KeyModel) -> u8 {
    match v {
        KeyModel::Null => TAG_NULL,
        KeyModel::Boolean(_) => TAG_BOOLEAN,
        KeyModel::Int64(_) => TAG_INT64,
        KeyModel::Str(_) => TAG_STRING,
    }
}

/// The document order on key values: first by kind (null, integer, string,
/// boolean), then within a kind by value; strings compare by their bytes.
pub open spec fn key_lt(v: KeyModel, w: KeyModel) -> bool {
    if kind_tag(v) != kind_tag(w) {
        kind_tag(v) < kind_tag(w)
    } else {
        match (v, w) {
            (KeyModel::Boolean(a), KeyModel::Boolean(b)) => !a && b,
            (KeyModel::Int64(a), KeyModel::Int64(b)) => a < b,
            (KeyModel::Str(a), KeyModel::Str(b)) => lex_lt(a, b),
            _ => false,
        }
    }
}

/// The canonical bytes of one key value: its kind tag, then its payload.
pub open spec fn encode_key(v: KeyModel) -> Seq<u8> {
    match v {
        KeyModel::Null => seq![TAG_NULL],
        KeyModel::Boolean(b) => seq![TAG_BOOLEAN, if b { 1u8 } else { 0u8 }],
        KeyModel::Int64(i) => seq![TAG_INT64] + be_bytes((i + SIGN_OFFSET) as nat, 8),
        KeyModel::Str(s) => seq![TAG_STRING] + (s + seq![0u8]),
    }
}

proof fn lemma_starts_with_common(p: Seq<u8>, a: Seq<u8>, b: Seq<u8>)
    ensures
        starts_with(p + a, p + b) == starts_with(a, b),
{
    if starts_with(a, b) {
        assert((p + a).subrange(0, (p + b).len() as int) =~= p + a.subrange(0, b.len() as int));
    }
    if starts_with(p + a, p + b) {
        assert(a.subrange(0, b.len() as int) =~= (p + a).subrange(0, (p + b).len() as int).subrange(
            p.len() as int,
            (p + b).len() as int,
        ));
        assert((p + b).subrange(p.len() as int, (p + b).len() as int) =~= b);
    }
}

/// Two strings without zero bytes, each closed by a zero byte: neither
/// closed form starts with the other, and they compare as the strings do.
proof fn lemma_terminated(s: Seq<u8>, t: Seq<u8>)
    requires
        no_zero_byte(s),
        no_zero_byte(t),
        s != t,
    ensures
        !starts_with(s + seq![0u8], t + seq![0u8]),
        !starts_with(t + seq![0u8], s + seq![0u8]),
        lex_lt(s + seq![0u8], t + seq![0u8]) == lex_lt(s, t),
    decreases s.len(),
{
    let z = seq![0u8];
    let sz = s + z;
    let tz = t + z;
    if s.len() == 0 {
        assert(t.len() > 0) by {
            if t.len() == 0 {
                assert(s =~= t);
            }
        }
        assert(tz[0] == t[0] && t[0] != 0);
        assert(sz[0] == 0);
        assert(sz.subrange(0, tz.len() as int).len() > sz.len() || tz.len() > sz.len());
        assert(tz.subrange(0, sz.len() as int)[0] != sz[0]);
    } else if t.len() == 0 {
        assert(sz[0] == s[0] && s[0] != 0);
        assert(tz[0] == 0);
        assert(sz.subrange(0, tz.len() as int)[0] != tz[0]);
    } else if s[0] != t[0] {
        assert(sz[0] == s[0] && tz[0] == t[0]);
        if tz.len() <= sz.len() {
            assert(sz.subrange(0, tz.len() as int)[0] != tz[0]);
        }
        if sz.len() <= tz.len() {
            assert(tz.subrange(0, sz.len() as int)[0] != sz[0]);
        }
    } else {
        let s1 = s.drop_first();
        let t1 = t.drop_first();
        assert(s1 != t1) by {
            if s1 == t1 {
                assert(s =~= seq![s[0]] + s1);
                assert(t =~= seq![t[0]] + t1);
            }
        }
        lemma_terminated(s1, t1);
        assert(sz =~= seq![s[0]] + (s1 + z));
        assert(tz =~= seq![s[0]] + (t1 + z));
        lemma_starts_with_common(seq![s[0]], s1 + z, t1 + z);
        lemma_starts_with_common(seq![s[0]], t1 + z, s1 + z);
        assert(sz.drop_first() =~= s1 + z);
        assert(tz.drop_first() =~= t1 + z);
    }
}

/// Of two different valid values, neither encoding starts with the other,
/// and the encodings compare as the values do.
proof fn lemma_encode_key_pair(v: KeyModel, w: KeyModel)
    requires
        valid_key(v),
        valid_key(w),
        v != w,
    ensures
        !starts_with(encode_key(v), encode_key(w)),
        !starts_with(encode_key(w), encode_key(v)),
        lex_lt(encode_key(v), encode_key(w)) == key_lt(v, w),
{
    let ev = encode_key(v);
    let ew = encode_key(w);
    assert(ev[0] == kind_tag(v) && ew[0] == kind_tag(w));
    if kind_tag(v) != kind_tag(w) {
        if ew.len() <= ev.len() {
            assert(ev.subrange(0, ew.len() as int)[0] != ew[0]);
        }
        if ev.len() <= ew.len() {
            assert(ew.subrange(0, ev.len() as int)[0] != ev[0]);
        }
    } else {
        match (v, w) {
            (KeyModel::Boolean(a), KeyModel::Boolean(b)) => {
                assert(ev.subrange(0, 2)[1] != ew[1]);
                assert(ew.subrange(0, 2)[1] != ev[1]);
                assert(ev.drop_first() =~= seq![if a { 1u8 } else { 0u8 }]);
                assert(ew.drop_first() =~= seq![if b { 1u8 } else { 0u8 }]);
                reveal_with_fuel(lex_lt, 3);
            },
            (KeyModel::Int64(a), KeyModel::Int64(b)) => {
                let ua = (a + SIGN_OFFSET) as nat;
                let ub = (b + SIGN_OFFSET) as nat;
                lemma_pow256_eight();
                lemma_be_bytes_len(ua, 8);
                lemma_be_bytes_len(ub, 8);
                lemma_be_bytes_order(ua, ub, 8);
                lemma_be_bytes_order(ub, ua, 8);
                lemma_lex_common_prefix(seq![TAG_INT64], be_bytes(ua, 8), be_bytes(ub, 8));
                lemma_lex_irreflexive(ev);
                assert(ev != ew) by {
                    if ev == ew {
                        lemma_lex_irreflexive(be_bytes(ua, 8));
                        assert(ev.drop_first() =~= be_bytes(ua, 8));
                        assert(ew.drop_first() =~= be_bytes(ub, 8));
                    }
                }
                assert(ev.subrange(0, ew.len() as int) =~= ev);
                assert(ew.subrange(0, ev.len() as int) =~= ew);
            },
            (KeyModel::Str(a), KeyModel::Str(b)) => {
                lemma_terminated(a, b);
                lemma_starts_with_common(seq![TAG_STRING], a + seq![0u8], b + seq![0u8]);
                lemma_starts_with_common(seq![TAG_STRING], b + seq![0u8], a + seq![0u8]);
                lemma_lex_common_prefix(seq![TAG_STRING], a + seq![0u8], b + seq![0u8]);
            },
            _ => {},
        }
    }
}

/// Every value of the sequence has a key encoding.
pub open spec fn all_valid(a: Seq<KeyModel>) -> bool {
    forall|i: int| 0 <= i < a.len() ==> valid_key(#[trigger] a[i])
}

/// The document order on sequences of key values: lexicographic over
/// `key_lt`, a proper leading part first.
pub open spec fn keys_lt(a: Seq<KeyModel>, b: Seq<KeyModel>) -> bool
    decreases a.len(),
{
    if a.len() == 0 {
        b.len() > 0
    } else if b.len() == 0 {
        false
    } else if a[0] != b[0] {
        key_lt(a[0], b[0])
    } else {
        keys_lt(a.drop_first(), b.drop_first())
    }
}

/// A stacked key: the encodings of the values, one after another.
pub open spec fn encode_keys(a: Seq<KeyModel>) -> Seq<u8>
    decreases a.len(),
{
    if a.len() == 0 {
        Seq::empty()
    } else {
        encode_key(a[0]) + encode_keys(a.drop_first())
    }
}

pub open spec fn seq_views(a: Seq<KeyValue>) -> Seq<KeyModel> {
    a.map_values(|k: KeyValue| k@)
}

/// Stacked keys agree with the document order: for sequences of values
/// that can be encoded, one comes before another exactly when its stacked
/// key is byte-wise smaller, and different sequences never share a key.
pub proof fn lemma_encode_order(a: Seq<KeyModel>, b: Seq<KeyModel>)
    requires
        all_valid(a),
        all_valid(b),
    ensures
        keys_lt(a, b) == lex_lt(encode_keys(a), encode_keys(b)),
        (encode_keys(a) == encode_keys(b)) == (a == b),
    decreases a.len(),
{
    let ea = encode_keys(a);
    let eb = encode_keys(b);
    if a.len() == 0 && b.len() == 0 {
        assert(a =~= b);
    } else if a.len() == 0 {
        assert(eb.len() > 0) by {
            assert(encode_key(b[0]).len() > 0);
        }
    } else if b.len() == 0 {
        assert(ea.len() > 0) by {
            assert(encode_key(a[0]).len() > 0);
        }
    } else {
        let a1 = a.drop_first();
        let b1 = b.drop_first();
        assert(all_valid(a1)) by {
            assert forall|i: int| 0 <= i < a1.len() implies valid_key(#[trigger] a1[i]) by {
                assert(a1[i] == a[i + 1]);
            }
        }
        assert(all_valid(b1)) by {
            assert forall|i: int| 0 <= i < b1.len() implies valid_key(#[trigger] b1[i]) by {
                assert(b1[i] == b[i + 1]);
            }
        }
        assert(valid_key(a[0]) && valid_key(b[0]));
        let x = encode_keys(a1);
        let y = encode_keys(b1);
        if a[0] == b[0] {
            lemma_encode_order(a1, b1);
            lemma_lex_common_prefix(encode_key(a[0]), x, y);
            if a1 == b1 {
                assert(a =~= b) by {
                    assert(a =~= seq![a[0]] + a1);
                    assert(b =~= seq![b[0]] + b1);
                }
            }
            if ea == eb {
                assert(x =~= ea.subrange(encode_key(a[0]).len() as int, ea.len() as int));
                assert(y =~= eb.subrange(encode_key(a[0]).len() as int, eb.len() as int));
            }
        } else {
            let u = encode_key(a[0]);
            let w = encode_key(b[0]);
            lemma_encode_key_pair(a[0], b[0]);
            lemma_lex_diverged(u, w, x, y);
            if ea == eb {
                if u.len() <= w.len() {
                    assert(w.subrange(0, u.len() as int) =~= eb.subrange(0, u.len() as int));
                    assert(u =~= ea.subrange(0, u.len() as int));
                } else {
                    assert(u.subrange(0, w.len() as int) =~= ea.subrange(0, w.len() as int));
                    assert(w =~= eb.subrange(0, w.len() as int));
                }
            }
        }
    }
}

/// Appends the eight big-endian bytes of `u`.
fn push_u64_be(out: &mut Vec<u8>, u: u64)
    ensures
        final(out)@ == old(out)@ + be_bytes(u as nat, 8),
{
    let ghost start = out@;
    let mut rem: u64 = u;
    let mut p: u64 = 0x0100_0000_0000_0000;
    let mut k: usize = 8;
    proof {
        lemma_pow256_eight();
        assert(out@ =~= start + Seq::empty());
    }
    while k > 0
        invariant
            k <= 8,
            k > 0 ==> p as nat == pow256((k - 1) as nat),
            rem as nat <= pow256(k as nat),
            out@ + be_bytes(rem as nat, k as nat) == start + be_bytes(u as nat, 8),
        decreases k,
    {
        let ghost m = (k - 1) as nat;
        proof {
            lemma_pow256_positive(m);
        }
        let ghost before = out@;
        let d = ((rem / p) % 256) as u8;
        out.push(d);
        let ghost old_rem = rem;
        rem = rem % p;
        proof {
            assert(be_bytes(old_rem as nat, k as nat) == seq![d] + be_bytes(rem as nat, m));
            assert(out@ + be_bytes(rem as nat, m) =~= before + be_bytes(old_rem as nat, k as nat));
        }
        if k > 1 {
            proof {
                lemma_pow256_positive((m - 1) as nat);
                assert(pow256(m) == 256 * pow256((m - 1) as nat));
                vstd::arithmetic::div_mod::lemma_div_multiples_vanish(
                    pow256((m - 1) as nat) as int,
                    256,
                );
            }
            p = p / 256;
        }
        k = k - 1;
    }
    assert(out@ =~= out@ + be_bytes(rem as nat, 0));
}

/// Appends the canonical bytes of `key` to `out`.
///
/// A string that holds a zero byte has no encoding: then `out` is left as
/// it was and the error is returned.
pub fn stacked_key_bytes(out: &mut Vec<u8>, key: &KeyValue) -> (r: Result<(), DbErr>)
    ensures
        r is Ok <==> valid_key(key@),
        r is Ok ==> final(out)@ == old(out)@ + encode_key(key@),
        r is Err ==> r == Err::<(), DbErr>(DbErr::NotAValidKeyType) && final(out)@ == old(out)@,
{
    match key {
        KeyValue::Null => {
            out.push(TAG_NULL);
            assert(out@ =~= old(out)@ + encode_key(key@));
        },
        KeyValue::Boolean(b) => {
            out.push(TAG_BOOLEAN);
            out.push(if *b { 1u8 } else { 0u8 });
            assert(out@ =~= old(out)@ + encode_key(key@));
        },
        KeyValue::Int64(i) => {
            let flipped: u64 = if *i >= 0 {
                (*i as u64) + SIGN_OFFSET
            } else {
                (*i + 1 + i64::MAX) as u64
            };
            out.push(TAG_INT64);
            push_u64_be(out, flipped);
            assert(out@ =~= old(out)@ + encode_key(key@));
        },
        KeyValue::String(s) => {
            let bytes = s.as_str().as_bytes();
            let mut i: usize = 0;
            while i < bytes.len()
                invariant
                    bytes@ == encode_utf8(s@),
                    key@ == KeyModel::Str(bytes@),
                    i <= bytes@.len(),
                    forall|j: int| 0 <= j < i ==> bytes@[j] != 0,
                decreases bytes@.len() - i,
            {
                if bytes[i] == 0 {
                    assert(bytes@[i as int] == 0);
                    assert(!no_zero_byte(bytes@));
                    return Err(DbErr::NotAValidKeyType);
                }
                i = i + 1;
            }
            out.push(TAG_STRING);
            let mut j: usize = 0;
            while j < bytes.len()
                invariant
                    bytes@ == encode_utf8(s@),
                    key@ == KeyModel::Str(bytes@),
                    j <= bytes@.len(),
                    out@ == old(out)@ + seq![TAG_STRING] + bytes@.subrange(0, j as int),
                decreases bytes@.len() - j,
            {
                out.push(bytes[j]);
                assert(bytes@.subrange(0, j + 1) =~= bytes@.subrange(0, j as int).push(bytes@[j as int]));
                j = j + 1;
            }
            out.push(0u8);
            assert(bytes@.subrange(0, bytes@.len() as int) =~= bytes@);
            assert(out@ =~= old(out)@ + encode_key(key@));
        },
    }
    Ok(())
}

/// The stacked key of a sequence of values: their encodings one after
/// another, or the error if one of them has no encoding.
pub fn stacked_key(keys: &[KeyValue]) -> (r: Result<Vec<u8>, DbErr>)
    ensures
        r is Ok <==> all_valid(seq_views(keys@)),
        r matches Ok(bytes) ==> bytes@ == encode_keys(seq_views(keys@)),
        r is Err ==> r == Err::<Vec<u8>, DbErr>(DbErr::NotAValidKeyType),
{
    let mut out: Vec<u8> = Vec::new();
    let mut i: usize = 0;
    assert(keys@.subrange(0, keys@.len() as int) =~= keys@);
    assert(out@ + encode_keys(seq_views(keys@)) =~= encode_keys(seq_views(keys@)));
    assert(all_valid(seq_views(keys@.subrange(0, 0))));
    while i < keys.len()
        invariant
            i <= keys@.len(),
            all_valid(seq_views(keys@.subrange(0, i as int))),
            out@ + encode_keys(seq_views(keys@.subrange(i as int, keys@.len() as int)))
                == encode_keys(seq_views(keys@)),
        decreases keys@.len() - i,
    {
        let ghost rest = seq_views(keys@.subrange(i as int, keys@.len() as int));
        assert(rest[0] == keys@[i as int]@);
        assert(rest.drop_first() =~= seq_views(keys@.subrange(i + 1, keys@.len() as int)));
        let ghost before = out@;
        match stacked_key_bytes(&mut out, &keys[i]) {
            Ok(()) => {},
            Err(e) => {
                assert(!all_valid(seq_views(keys@))) by {
                    assert(seq_views(keys@)[i as int] == keys@[i as int]@);
                }
                return Err(e);
            },
        }
        assert(out@ + encode_keys(rest.drop_first()) =~= before + encode_keys(rest));
        assert(all_valid(seq_views(keys@.subrange(0, i + 1)))) by {
            let pre = seq_views(keys@.subrange(0, i + 1));
            assert forall|j: int| 0 <= j < pre.len() implies valid_key(#[trigger] pre[j]) by {
                if j < i {
                    assert(pre[j] == seq_views(keys@.subrange(0, i as int))[j]);
                } else {
                    assert(pre[j] == keys@[i as int]@);
                }
            }
        }
        i = i + 1;
    }
    assert(keys@.subrange(0, keys@.len() as int) =~= keys@);
    assert(encode_keys(seq_views(keys@.subrange(i as int, keys@.len() as int))) =~= Seq::<u8>::empty());
    assert(out@ =~= out@ + Seq::<u8>::empty());
    Ok(out)
}

} // verus!
