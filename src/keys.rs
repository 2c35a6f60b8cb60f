//! Row keys as byte strings: their order, variable-length integers, and the
//! prefix-compressed key store used by sorted runs and spills.
use vstd::prelude::*;

verus! {

/// Strict lexicographic order on byte strings: the order of encoded row keys.
pub open spec fn lex_lt(a: Seq<u8>, b: Seq<u8>) -> bool
    decreases a.len(),
{
    if a.len() == 0 {
        b.len() > 0
    } else if b.len() == 0 {
        false
    } else if a[0] != b[0] {
        a[0] < b[0]
    } else {
        lex_lt(a.drop_first(), b.drop_first())
    }
}

/// Non-strict lexicographic order on byte strings.
pub open spec fn lex_le(a: Seq<u8>, b: Seq<u8>) -> bool {
    !lex_lt(b, a)
}

pub proof fn lemma_lex_irreflexive(a: Seq<u8>)
    ensures
        !lex_lt(a, a),
    decreases a.len(),
{
    if a.len() > 0 {
        lemma_lex_irreflexive(a.drop_first());
    }
}

pub proof fn lemma_lex_transitive(a: Seq<u8>, b: Seq<u8>, c: Seq<u8>)
    requires
        lex_lt(a, b),
        lex_lt(b, c),
    ensures
        lex_lt(a, c),
    decreases a.len(),
{
    if a.len() > 0 && b.len() > 0 && c.len() > 0 {
        if a[0] == b[0] && b[0] == c[0] {
            lemma_lex_transitive(a.drop_first(), b.drop_first(), c.drop_first());
        }
    }
}

pub proof fn lemma_lex_total(a: Seq<u8>, b: Seq<u8>)
    ensures
        lex_lt(a, b) || lex_lt(b, a) || a == b,
    decreases a.len(),
{
    if a.len() > 0 && b.len() > 0 {
        if a[0] == b[0] {
            lemma_lex_total(a.drop_first(), b.drop_first());
            if a.drop_first() == b.drop_first() {
                assert(a =~= seq![a[0]] + a.drop_first());
                assert(b =~= seq![b[0]] + b.drop_first());
            }
        }
    } else if a.len() == 0 && b.len() == 0 {
        assert(a =~= b);
    }
}

pub proof fn lemma_lex_asymmetric(a: Seq<u8>, b: Seq<u8>)
    requires
        lex_lt(a, b),
    ensures
        !lex_lt(b, a),
{
    if lex_lt(b, a) {
        lemma_lex_transitive(a, b, a);
        lemma_lex_irreflexive(a);
    }
}

/// `lex_le` is transitive.
pub proof fn lemma_lex_le_transitive(a: Seq<u8>, b: Seq<u8>, c: Seq<u8>)
    requires
        lex_le(a, b),
        lex_le(b, c),
    ensures
        lex_le(a, c),
{
    if lex_lt(c, a) {
        lemma_lex_total(a, b);
        if lex_lt(a, b) {
            lemma_lex_transitive(c, a, b);
        }
    }
}

/// Compares two keys: `true` exactly when `a` sorts strictly before `b`.
pub fn key_lt(a: &[u8], b: &[u8]) -> (r: bool)
    ensures
        r == lex_lt(a@, b@),
{
    let mut i: usize = 0;
    assert(a@.skip(0) =~= a@);
    assert(b@.skip(0) =~= b@);
    while i < a.len() && i < b.len()
        invariant
            i <= a@.len(),
            i <= b@.len(),
            lex_lt(a@, b@) == lex_lt(a@.skip(i as int), b@.skip(i as int)),
        decreases a.len() - i,
    {
        if a[i] != b[i] {
            assert(a@.skip(i as int)[0] == a@[i as int]);
            assert(b@.skip(i as int)[0] == b@[i as int]);
            return a[i] < b[i];
        }
        assert(a@.skip(i as int).drop_first() =~= a@.skip(i + 1));
        assert(b@.skip(i as int).drop_first() =~= b@.skip(i + 1));
        i = i + 1;
    }
    i < b.len()
}

/// Length of the longest common prefix of `a` and `b`, counting from `i`.
pub open spec fn prefix_len_from(a: Seq<u8>, b: Seq<u8>, i: int) -> int
    decreases a.len() - i,
{
    if i < 0 || i >= a.len() || i >= b.len() || a[i] != b[i] {
        i
    } else {
        prefix_len_from(a, b, i + 1)
    }
}

/// Length of the longest common prefix of two byte strings.
pub open spec fn prefix_len(a: Seq<u8>, b: Seq<u8>) -> int {
    prefix_len_from(a, b, 0)
}

proof fn lemma_prefix_len_from(a: Seq<u8>, b: Seq<u8>, i: int)
    requires
        0 <= i <= a.len(),
        i <= b.len(),
        a.subrange(0, i) == b.subrange(0, i),
    ensures
        i <= prefix_len_from(a, b, i) <= a.len(),
        prefix_len_from(a, b, i) <= b.len(),
        a.subrange(0, prefix_len_from(a, b, i)) == b.subrange(0, prefix_len_from(a, b, i)),
        prefix_len_from(a, b, i) < a.len() && prefix_len_from(a, b, i) < b.len() ==> a[prefix_len_from(
            a,
            b,
            i,
        )] != b[prefix_len_from(a, b, i)],
    decreases a.len() - i,
{
    if i < a.len() && i < b.len() && a[i] == b[i] {
        assert(a.subrange(0, i + 1) =~= a.subrange(0, i).push(a[i]));
        assert(b.subrange(0, i + 1) =~= b.subrange(0, i).push(b[i]));
        lemma_prefix_len_from(a, b, i + 1);
    }
}

/// What characterises the common prefix length: both strings agree on it,
/// and differ (or one ends) right after it.
pub proof fn lemma_prefix_len(a: Seq<u8>, b: Seq<u8>)
    ensures
        0 <= prefix_len(a, b) <= a.len(),
        prefix_len(a, b) <= b.len(),
        a.subrange(0, prefix_len(a, b)) == b.subrange(0, prefix_len(a, b)),
        prefix_len(a, b) < a.len() && prefix_len(a, b) < b.len() ==> a[prefix_len(a, b)] != b[prefix_len(
            a,
            b,
        )],
{
    assert(a.subrange(0, 0) =~= b.subrange(0, 0));
    lemma_prefix_len_from(a, b, 0);
}

/// Length of the longest common byte prefix of `a` and `b`.
pub fn common_prefix_len(a: &[u8], b: &[u8]) -> (r: usize)
    ensures
        r == prefix_len(a@, b@),
{
    let max_len = if a.len() < b.len() {
        a.len()
    } else {
        b.len()
    };
    let mut i: usize = 0;
    while i < max_len
        invariant
            i <= max_len,
            max_len <= a@.len(),
            max_len <= b@.len(),
            max_len == a@.len() || max_len == b@.len(),
            prefix_len_from(a@, b@, i as int) == prefix_len(a@, b@),
        decreases max_len - i,
    {
        if a[i] != b[i] {
            return i;
        }
        i = i + 1;
    }
    i
}

// ---------------------------------------------------------------------------
// Variable-length integers (little-endian base-128, high bit = continuation)
// ---------------------------------------------------------------------------
/// Encoding of a length: seven bits per byte, low bits first; every byte but
/// the last has its high bit set.
pub open spec fn varint(v: nat) -> Seq<u8>
    decreases v,
{
    if v < 128 {
        seq![v as u8]
    } else {
        seq![((v % 128) + 128) as u8] + varint(v / 128)
    }
}

pub proof fn lemma_varint_len(v: nat)
    ensures
        varint(v).len() >= 1,
    decreases v,
{
    if v >= 128 {
        lemma_varint_len(v / 128);
    }
}

/// `s` holds `part` starting at `pos`.
pub open spec fn holds_at(s: Seq<u8>, pos: int, part: Seq<u8>) -> bool {
    0 <= pos && pos + part.len() <= s.len() && s.subrange(pos, pos + part.len()) == part
}

/// Appends the encoding of `v` to `w`.
pub fn write_len(v: usize, w: &mut Vec<u8>)
    ensures
        final(w)@ == old(w)@ + varint(v as nat),
{
    let mut x: usize = v;
    while x >= 128
        invariant
            old(w)@ + varint(v as nat) == w@ + varint(x as nat),
        decreases x,
    {
        let b: u8 = (x % 128 + 128) as u8;
        proof {
            assert(varint(x as nat) == seq![b] + varint((x / 128) as nat));
            assert(w@.push(b) + varint((x / 128) as nat) =~= w@ + (seq![b] + varint(
                (x / 128) as nat,
            )));
        }
        w.push(b);
        x = x / 128;
    }
    proof {
        assert(varint(x as nat) == seq![x as u8]);
    }
    w.push(x as u8);
    assert(w@ =~= old(w)@ + varint(v as nat));
}

proof fn lemma_varint_split(v: nat, rest: nat, low: nat)
    requires
        v == rest * 128 + low,
        low < 128,
        rest >= 1,
    ensures
        varint(v) == seq![(low + 128) as u8] + varint(rest),
{
    vstd::arithmetic::div_mod::lemma_fundamental_div_mod_converse(v as int, 128, rest as int, low as int);
}

/// Reads one encoded length from `buf` at `pos`: the value and the position
/// right after it.
pub fn read_len(buf: &[u8], pos: usize) -> (r: Option<(usize, usize)>)
    requires
        pos <= buf@.len(),
    ensures
        forall|v: nat|
            v <= usize::MAX && holds_at(buf@, pos as int, #[trigger] varint(v)) ==> r == Some(
                (v as usize, (pos + varint(v).len()) as usize),
            ),
        r matches Some((v, np)) ==> pos < np <= buf@.len() && buf@.subrange(pos as int, np as int)
            == varint(v as nat),
    decreases buf@.len() - pos,
{
    if pos >= buf.len() {
        proof {
            assert forall|v: nat|
                v <= usize::MAX && holds_at(buf@, pos as int, #[trigger] varint(v)) implies false by {
                lemma_varint_len(v);
            }
        }
        return None;
    }
    let b = buf[pos];
    if b < 128 {
        proof {
            assert(buf@.subrange(pos as int, pos + 1) =~= seq![b]);
            assert forall|v: nat|
                v <= usize::MAX && holds_at(buf@, pos as int, #[trigger] varint(v)) implies v == b
                && varint(v).len() == 1 by {
                assert(varint(v)[0] == buf@[pos as int]);
                if v >= 128 {
                    assert(varint(v)[0] == ((v % 128) + 128) as u8);
                }
            }
        }
        return Some((b as usize, pos + 1));
    }
    let inner = read_len(buf, pos + 1);
    proof {
        assert forall|v: nat|
            v <= usize::MAX && holds_at(buf@, pos as int, #[trigger] varint(v)) implies v >= 128 && (
            v / 128) >= 1 && holds_at(buf@, pos + 1, varint(v / 128)) && v % 128 == b - 128 by {
            assert(varint(v)[0] == buf@[pos as int]);
            if v < 128 {
                assert(varint(v)[0] == v as u8);
            } else {
                let tail = varint(v / 128);
                assert(varint(v) == seq![((v % 128) + 128) as u8] + tail);
                assert(buf@.subrange(pos + 1, pos + 1 + tail.len()) =~= varint(v).subrange(
                    1,
                    varint(v).len() as int,
                ));
                assert(varint(v).subrange(1, varint(v).len() as int) =~= tail);
            }
        }
    }
    match inner {
        None => None,
        Some((rest, np)) => {
            if rest == 0 {
                proof {
                    assert forall|v: nat|
                        v <= usize::MAX && holds_at(buf@, pos as int, #[trigger] varint(v)) implies false by {
                        assert(varint(v / 128) == varint(rest as nat));
                    }
                }
                return None;
            }
            let low: usize = (b - 128) as usize;
            if rest > (usize::MAX - low) / 128 {
                proof {
                    assert forall|v: nat|
                        v <= usize::MAX && holds_at(buf@, pos as int, #[trigger] varint(v)) implies false by {
                        assert(v / 128 == rest);
                        assert(v == 128 * (v / 128) + v % 128) by {
                            vstd::arithmetic::div_mod::lemma_fundamental_div_mod(v as int, 128);
                        }
                        assert(rest * 128 + low > usize::MAX) by (nonlinear_arith)
                            requires
                                rest > (usize::MAX - low) / 128,
                                low < 128,
                        ;
                    }
                }
                return None;
            }
            assert(rest * 128 + low <= usize::MAX) by (nonlinear_arith)
                requires
                    rest <= (usize::MAX - low) / 128,
                    low < 128,
            ;
            let v: usize = rest * 128 + low;
            proof {
                lemma_varint_split(v as nat, rest as nat, low as nat);
                assert(buf@.subrange(pos as int, np as int) =~= seq![b] + buf@.subrange(
                    pos + 1,
                    np as int,
                ));
                assert forall|u: nat|
                    u <= usize::MAX && holds_at(buf@, pos as int, #[trigger] varint(u)) implies u == v
                    && varint(u).len() == np - pos by {
                    assert(u / 128 == rest);
                    assert(u == 128 * (u / 128) + u % 128) by {
                        vstd::arithmetic::div_mod::lemma_fundamental_div_mod(u as int, 128);
                    }
                    assert(varint(u) == seq![((u % 128) + 128) as u8] + varint(u / 128));
                }
            }
            Some((v, np))
        },
    }
}

pub proof fn lemma_holds_at_concat(s: Seq<u8>, pos: int, a: Seq<u8>, b: Seq<u8>)
    requires
        holds_at(s, pos, a + b),
    ensures
        holds_at(s, pos, a),
        holds_at(s, pos + a.len(), b),
{
    assert(s.subrange(pos, pos + a.len()) =~= (a + b).subrange(0, a.len() as int));
    assert((a + b).subrange(0, a.len() as int) =~= a);
    assert(s.subrange(pos + a.len(), pos + a.len() + b.len()) =~= (a + b).subrange(
        a.len() as int,
        (a.len() + b.len()) as int,
    ));
    assert((a + b).subrange(a.len() as int, (a.len() + b.len()) as int) =~= b);
}

// ---------------------------------------------------------------------------
// Prefix-compressed key store
// ---------------------------------------------------------------------------
/// The bytes that stand for `key` right after `prev` in a key store. A key
/// equal to the previous one is the single token `0`; any other key is
/// `suffix_len + 1`, the length of the prefix shared with `prev`, then the
/// bytes after that prefix.
pub open spec fn key_token(prev: Seq<u8>, key: Seq<u8>) -> Seq<u8> {
    let p = prefix_len(prev, key);
    if p == key.len() && p == prev.len() {
        varint(0)
    } else {
        varint((key.len() - p + 1) as nat) + varint(p as nat) + key.subrange(p, key.len() as int)
    }
}

/// The key before the end of `keys`, or the empty key for an empty sequence.
pub open spec fn last_key(keys: Seq<Seq<u8>>) -> Seq<u8> {
    if keys.len() == 0 {
        Seq::empty()
    } else {
        keys.last()
    }
}

/// A whole key store: the tokens of `keys` in order, each against the key
/// before it (the first against the empty key).
pub open spec fn encode_keys(keys: Seq<Seq<u8>>) -> Seq<u8>
    decreases keys.len(),
{
    if keys.len() == 0 {
        Seq::empty()
    } else {
        encode_keys(keys.drop_last()) + key_token(last_key(keys.drop_last()), keys.last())
    }
}

/// Every key is short enough for its token's lengths to fit in `usize`.
pub open spec fn storable_keys(keys: Seq<Seq<u8>>) -> bool {
    forall|i: int| 0 <= i < keys.len() ==> #[trigger] keys[i].len() < usize::MAX
}

/// The view of a list of keys.
pub open spec fn key_seqs(keys: Seq<Vec<u8>>) -> Seq<Seq<u8>> {
    keys.map_values(|k: Vec<u8>| k@)
}

pub proof fn lemma_encode_keys_step(keys: Seq<Seq<u8>>, i: int)
    requires
        0 <= i < keys.len(),
    ensures
        encode_keys(keys.take(i + 1)) == encode_keys(keys.take(i)) + key_token(
            last_key(keys.take(i)),
            keys[i],
        ),
{
    assert(keys.take(i + 1).drop_last() =~= keys.take(i));
}

pub proof fn lemma_encode_keys_prefix(keys: Seq<Seq<u8>>, j: int)
    requires
        0 <= j <= keys.len(),
    ensures
        holds_at(encode_keys(keys), 0, encode_keys(keys.take(j))),
    decreases keys.len(),
{
    if j == keys.len() {
        assert(keys.take(j) =~= keys);
        assert(encode_keys(keys).subrange(0, encode_keys(keys).len() as int) =~= encode_keys(keys));
    } else {
        let d = keys.drop_last();
        assert(d.take(j) =~= keys.take(j));
        lemma_encode_keys_prefix(d, j);
        let e = encode_keys(keys.take(j));
        assert(encode_keys(keys).subrange(0, e.len() as int) =~= encode_keys(d).subrange(
            0,
            e.len() as int,
        ));
    }
}

/// Writer side of a key store: remembers the last key written.
pub struct SortedKeysWriter {
    cur_key: Vec<u8>,
}

impl View for SortedKeysWriter {
    type V = Seq<u8>;

    closed spec fn view(&self) -> Seq<u8> {
        self.cur_key@
    }
}

impl SortedKeysWriter {
    pub fn new() -> (r: Self)
        ensures
            r@ == Seq::<u8>::empty(),
    {
        SortedKeysWriter { cur_key: Vec::new() }
    }

    /// Appends the token of `key` to `w` and remembers `key`.
    pub fn write_key(&mut self, key: &[u8], w: &mut Vec<u8>)
        requires
            key@.len() < usize::MAX,
        ensures
            final(w)@ == old(w)@ + key_token(old(self)@, key@),
            final(self)@ == key@,
    {
        let p = common_prefix_len(self.cur_key.as_slice(), key);
        proof {
            lemma_prefix_len(self.cur_key@, key@);
        }
        if p == key.len() && p == self.cur_key.len() {
            proof {
                assert(self.cur_key@ =~= self.cur_key@.subrange(0, p as int));
                assert(key@ =~= key@.subrange(0, p as int));
            }
            write_len(0, w);
        } else {
            let ghost w0 = w@;
            self.cur_key.truncate(p);
            let mut i: usize = p;
            while i < key.len()
                invariant
                    p <= i <= key@.len(),
                    self.cur_key@ == key@.subrange(0, i as int),
                decreases key@.len() - i,
            {
                proof {
                    assert(key@.subrange(0, i + 1) =~= key@.subrange(0, i as int).push(key@[i as int]));
                }
                self.cur_key.push(key[i]);
                i = i + 1;
            }
            assert(self.cur_key@ =~= key@);
            write_len(key.len() - p + 1, w);
            write_len(p, w);
            let ghost w1 = w@;
            let mut j: usize = p;
            while j < key.len()
                invariant
                    p <= j <= key@.len(),
                    w@ == w1 + key@.subrange(p as int, j as int),
                decreases key@.len() - j,
            {
                proof {
                    assert(key@.subrange(p as int, j + 1) =~= key@.subrange(p as int, j as int).push(
                        key@[j as int],
                    ));
                }
                w.push(key[j]);
                j = j + 1;
            }
            assert(w@ =~= w0 + key_token(old(self)@, key@));
        }
    }
}

/// Reader side of a key store: holds the key read last.
pub struct SortedKeysReader {
    cur_key: Vec<u8>,
}

impl View for SortedKeysReader {
    type V = Seq<u8>;

    closed spec fn view(&self) -> Seq<u8> {
        self.cur_key@
    }
}

impl SortedKeysReader {
    pub fn new() -> (r: Self)
        ensures
            r@ == Seq::<u8>::empty(),
    {
        SortedKeysReader { cur_key: Vec::new() }
    }

    /// A reader whose current key is `key`.
    pub fn with_key(key: Vec<u8>) -> (r: Self)
        ensures
            r@ == key@,
    {
        SortedKeysReader { cur_key: key }
    }

    /// The key read last.
    pub fn cur_key(&self) -> (r: &[u8])
        ensures
            r@ == self@,
    {
        self.cur_key.as_slice()
    }

    /// Reads the token at `pos` of `buf`, makes the key it stands for the
    /// current key and returns the position after the token. Where the bytes
    /// at `pos` are the token of some key `k` against the current key, the
    /// current key becomes `k`.
    pub fn read_key(&mut self, buf: &[u8], pos: usize) -> (r: Option<usize>)
        requires
            pos <= buf@.len(),
        ensures
            forall|k: Seq<u8>|
                k.len() < usize::MAX && holds_at(buf@, pos as int, #[trigger] key_token(old(self)@, k))
                    ==> r == Some((pos + key_token(old(self)@, k).len()) as usize) && final(self)@
                    == k,
            r matches Some(np) ==> pos < np <= buf@.len(),
    {
        let ghost prev = self.cur_key@;
        proof {
            assert forall|k: Seq<u8>|
                k.len() < usize::MAX && holds_at(buf@, pos as int, #[trigger] key_token(prev, k))
                    implies {
                    let p = prefix_len(prev, k);
                    &&& 0 <= p <= k.len()
                    &&& p <= prev.len()
                    &&& if p == k.len() && p == prev.len() {
                        k == prev && holds_at(buf@, pos as int, varint(0))
                    } else {
                        &&& holds_at(buf@, pos as int, varint((k.len() - p + 1) as nat))
                        &&& holds_at(
                            buf@,
                            pos + varint((k.len() - p + 1) as nat).len(),
                            varint(p as nat),
                        )
                        &&& holds_at(
                            buf@,
                            pos + varint((k.len() - p + 1) as nat).len() + varint(p as nat).len(),
                            k.subrange(p, k.len() as int),
                        )
                    }
                } by {
                lemma_prefix_len(prev, k);
                let p = prefix_len(prev, k);
                if p == k.len() && p == prev.len() {
                    assert(prev =~= prev.subrange(0, p));
                    assert(k =~= k.subrange(0, p));
                } else {
                    let a = varint((k.len() - p + 1) as nat);
                    let b = varint(p as nat);
                    let c = k.subrange(p, k.len() as int);
                    lemma_holds_at_concat(buf@, pos as int, a + b, c);
                    lemma_holds_at_concat(buf@, pos as int, a, b);
                }
            }
        }
        let (b, after_len) = match read_len(buf, pos) {
            None => {
                return None;
            },
            Some(x) => x,
        };
        if b == 0 {
            proof {
                assert forall|k: Seq<u8>|
                    k.len() < usize::MAX && holds_at(buf@, pos as int, #[trigger] key_token(prev, k))
                        implies prefix_len(prev, k) == k.len() && prefix_len(prev, k) == prev.len() by {
                    lemma_prefix_len(prev, k);
                    let p = prefix_len(prev, k);
                    if !(p == k.len() && p == prev.len()) {
                        assert(varint((k.len() - p + 1) as nat) == varint(0 as nat));
                    }
                }
            }
            return Some(after_len);
        }
        let suffix_len: usize = b - 1;
        let (plen, after_prefix) = match read_len(buf, after_len) {
            None => {
                return None;
            },
            Some(x) => x,
        };
        if plen > self.cur_key.len() {
            proof {
                assert forall|k: Seq<u8>|
                    k.len() < usize::MAX && holds_at(buf@, pos as int, #[trigger] key_token(prev, k))
                        implies false by {
                    lemma_prefix_len(prev, k);
                    let p = prefix_len(prev, k);
                    if p == k.len() && p == prev.len() {
                        assert(varint(0) == varint(b as nat));
                    }
                }
            }
            return None;
        }
        if suffix_len > buf.len() - after_prefix {
            proof {
                assert forall|k: Seq<u8>|
                    k.len() < usize::MAX && holds_at(buf@, pos as int, #[trigger] key_token(prev, k))
                        implies false by {
                    lemma_prefix_len(prev, k);
                    let p = prefix_len(prev, k);
                    if p == k.len() && p == prev.len() {
                        assert(varint(0) == varint(b as nat));
                    }
                }
            }
            return None;
        }
        self.cur_key.truncate(plen);
        let mut i: usize = 0;
        while i < suffix_len
            invariant
                plen <= prev.len(),
                after_prefix + suffix_len <= buf.len(),
                self.cur_key@ == prev.subrange(0, plen as int) + buf@.subrange(
                    after_prefix as int,
                    after_prefix + i,
                ),
                i <= suffix_len,
            decreases suffix_len - i,
        {
            proof {
                assert(buf@.subrange(after_prefix as int, after_prefix + i + 1) =~= buf@.subrange(after_prefix as int, after_prefix + i).push(
                    buf@[after_prefix + i],
                ));
            }
            self.cur_key.push(buf[after_prefix + i]);
            i = i + 1;
        }
        proof {
            assert forall|k: Seq<u8>|
                k.len() < usize::MAX && holds_at(buf@, pos as int, #[trigger] key_token(prev, k))
                    implies after_prefix + suffix_len == pos + key_token(prev, k).len() && self.cur_key@ == k by {
                lemma_prefix_len(prev, k);
                let p = prefix_len(prev, k);
                if p == k.len() && p == prev.len() {
                    assert(varint(0) == varint(b as nat));
                } else {
                    assert(plen == p);
                    assert(suffix_len == k.len() - p);
                    assert(k =~= k.subrange(0, p) + k.subrange(p, k.len() as int));
                }
            }
        }
        Some(after_prefix + suffix_len)
    }
}

/// Where the token of the key at index `i` of a key store starts.
pub proof fn lemma_token_at(keys: Seq<Seq<u8>>, i: int)
    requires
        0 <= i < keys.len(),
    ensures
        holds_at(
            encode_keys(keys),
            encode_keys(keys.take(i)).len() as int,
            key_token(last_key(keys.take(i)), keys[i]),
        ),
        encode_keys(keys.take(i + 1)).len() == encode_keys(keys.take(i)).len() + key_token(
            last_key(keys.take(i)),
            keys[i],
        ).len(),
        i == 0 ==> last_key(keys.take(i)) == Seq::<u8>::empty(),
        i > 0 ==> last_key(keys.take(i)) == keys[i - 1],
{
    lemma_encode_keys_prefix(keys, i + 1);
    lemma_encode_keys_step(keys, i);
    lemma_holds_at_concat(
        encode_keys(keys),
        0,
        encode_keys(keys.take(i)),
        key_token(last_key(keys.take(i)), keys[i]),
    );
}

/// An owned copy of a key.
pub fn copy_key(k: &[u8]) -> (r: Vec<u8>)
    ensures
        r@ == k@,
{
    let mut out: Vec<u8> = Vec::new();
    let mut j: usize = 0;
    while j < k.len()
        invariant
            j <= k@.len(),
            out@ == k@.subrange(0, j as int),
        decreases k@.len() - j,
    {
        proof {
            assert(k@.subrange(0, j + 1) =~= k@.subrange(0, j as int).push(k@[j as int]));
        }
        out.push(k[j]);
        j = j + 1;
    }
    assert(out@ =~= k@);
    out
}

/// Writes a whole key store for `keys`, in order.
pub fn encode_sorted_keys(keys: &Vec<Vec<u8>>) -> (r: Vec<u8>)
    requires
        storable_keys(key_seqs(keys@)),
    ensures
        r@ == encode_keys(key_seqs(keys@)),
{
    let ghost ks = key_seqs(keys@);
    let mut out: Vec<u8> = Vec::new();
    let mut writer = SortedKeysWriter::new();
    let mut i: usize = 0;
    while i < keys.len()
        invariant
            ks == key_seqs(keys@),
            storable_keys(ks),
            i <= keys@.len(),
            out@ == encode_keys(ks.take(i as int)),
            writer@ == last_key(ks.take(i as int)),
        decreases keys@.len() - i,
    {
        proof {
            lemma_encode_keys_step(ks, i as int);
            assert(ks[i as int] == keys@[i as int]@);
            assert(ks[i as int].len() < usize::MAX);
        }
        writer.write_key(keys[i].as_slice(), &mut out);
        proof {
            assert(ks.take(i + 1).last() == ks[i as int]);
        }
        i = i + 1;
    }
    assert(ks.take(keys@.len() as int) =~= ks);
    out
}

/// Reads `n` keys back from the key store `buf`. On a store that
/// `encode_keys` wrote for `n` keys it returns exactly those keys; on any
/// other store (a truncated one, say) it returns `None`.
pub fn decode_keys(buf: &[u8], n: usize) -> (r: Option<Vec<Vec<u8>>>)
    ensures
        r matches Some(out) ==> out@.len() == n && storable_keys(key_seqs(out@)) && buf@ == encode_keys(
            key_seqs(out@),
        ),
        forall|ks: Seq<Seq<u8>>|
            ks.len() == n && storable_keys(ks) && buf@ == #[trigger] encode_keys(ks) ==> (r matches Some(
                out,
            ) && key_seqs(out@) == ks),
{
    let blen = buf.len();
    let mut out: Vec<Vec<u8>> = Vec::new();
    let mut reader = SortedKeysReader::new();
    let mut pos: usize = 0;
    let mut i: usize = 0;
    while i < n
        invariant
            i <= n,
            out@.len() == i,
            pos <= buf@.len(),
            blen == buf@.len(),
            forall|ks: Seq<Seq<u8>>|
                ks.len() == n && storable_keys(ks) && buf@ == #[trigger] encode_keys(ks) ==> {
                    &&& pos == encode_keys(ks.take(i as int)).len()
                    &&& reader@ == last_key(ks.take(i as int))
                    &&& key_seqs(out@) == ks.take(i as int)
                },
        decreases n - i,
    {
        let ghost prev = reader@;
        let ghost out0 = out@;
        proof {
            assert forall|ks: Seq<Seq<u8>>|
                ks.len() == n && storable_keys(ks) && buf@ == #[trigger] encode_keys(ks) implies holds_at(
                    buf@,
                    pos as int,
                    key_token(prev, ks[i as int]),
                ) && ks[i as int].len() < usize::MAX by {
                lemma_encode_keys_prefix(ks, i + 1);
                lemma_encode_keys_step(ks, i as int);
                lemma_holds_at_concat(
                    buf@,
                    0,
                    encode_keys(ks.take(i as int)),
                    key_token(last_key(ks.take(i as int)), ks[i as int]),
                );
            }
        }
        let np = match reader.read_key(buf, pos) {
            None => {
                return None;
            },
            Some(np) => np,
        };
        let key = copy_key(reader.cur_key());
        out.push(key);
        proof {
            assert forall|ks: Seq<Seq<u8>>|
                ks.len() == n && storable_keys(ks) && buf@ == #[trigger] encode_keys(ks) implies {
                    &&& np == encode_keys(ks.take(i + 1)).len()
                    &&& reader@ == last_key(ks.take(i + 1))
                    &&& key_seqs(out@) == ks.take(i + 1)
                } by {
                lemma_encode_keys_step(ks, i as int);
                lemma_encode_keys_prefix(ks, i + 1);
                lemma_holds_at_concat(
                    buf@,
                    0,
                    encode_keys(ks.take(i as int)),
                    key_token(last_key(ks.take(i as int)), ks[i as int]),
                );
                assert(holds_at(buf@, pos as int, key_token(prev, ks[i as int])));
                assert(reader@ == ks[i as int]);
                assert(ks.take(i + 1).last() == ks[i as int]);
                assert(key_seqs(out0) == ks.take(i as int));
                assert(out@ == out0.push(key));
                assert(key_seqs(out@) =~= ks.take(i + 1));
                assert(np == encode_keys(ks.take(i + 1)).len());
            }
        }
        pos = np;
        i = i + 1;
    }
    proof {
        assert forall|ks: Seq<Seq<u8>>|
            ks.len() == n && storable_keys(ks) && buf@ == #[trigger] encode_keys(ks) implies key_seqs(
                out@,
            ) == ks by {
            assert(ks.take(n as int) =~= ks);
        }
    }
    // keep only what encodes back to the store itself
    let mut j: usize = 0;
    while j < out.len()
        invariant
            j <= out@.len(),
            out@.len() == n,
            forall|q: int| 0 <= q < j ==> (#[trigger] out@[q])@.len() < usize::MAX,
            forall|ks: Seq<Seq<u8>>|
                ks.len() == n && storable_keys(ks) && buf@ == #[trigger] encode_keys(ks) ==> key_seqs(out@) == ks,
        decreases out@.len() - j,
    {
        if out[j].len() == usize::MAX {
            proof {
                assert forall|ks: Seq<Seq<u8>>|
                    ks.len() == n && storable_keys(ks) && buf@ == #[trigger] encode_keys(ks) implies false by {
                    assert(key_seqs(out@)[j as int] == out@[j as int]@);
                }
            }
            return None;
        }
        j = j + 1;
    }
    assert(storable_keys(key_seqs(out@))) by {
        assert forall|q: int| 0 <= q < key_seqs(out@).len() implies #[trigger] key_seqs(out@)[q].len() < usize::MAX by {
            assert(key_seqs(out@)[q] == out@[q]@);
        }
    }
    let again = encode_sorted_keys(&out);
    if !bytes_eq(again.as_slice(), buf) {
        return None;
    }
    Some(out)
}

/// The two byte strings are equal.
pub fn bytes_eq(a: &[u8], b: &[u8]) -> (r: bool)
    ensures
        r == (a@ == b@),
{
    if a.len() != b.len() {
        return false;
    }
    let mut i: usize = 0;
    while i < a.len()
        invariant
            i <= a@.len(),
            a@.len() == b@.len(),
            a@.subrange(0, i as int) == b@.subrange(0, i as int),
        decreases a@.len() - i,
    {
        if a[i] != b[i] {
            return false;
        }
        proof {
            assert(a@.subrange(0, i + 1) =~= a@.subrange(0, i as int).push(a@[i as int]));
            assert(b@.subrange(0, i + 1) =~= b@.subrange(0, i as int).push(b@[i as int]));
        }
        i = i + 1;
    }
    assert(a@ =~= a@.subrange(0, a@.len() as int));
    assert(b@ =~= b@.subrange(0, b@.len() as int));
    true
}

} // verus!
