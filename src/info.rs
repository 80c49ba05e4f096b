//! Info strings: byte strings free of NUL and backslash, and the size-bounded,
//! insertion-ordered [`InfoMap`] with its `\key\value` wire form.
use crate::qstr::{copy_range, find_byte, first_at, lacks, FromBytesNulError, NulError, QStr, QString};
use indexmap::IndexMap;
use vstd::prelude::*;

verus! {

/// The byte that opens every key and every value on the wire.
pub const BACKSLASH: u8 = 0x5c;

/// The budget of a standard info map, in encoded bytes.
pub const INFO_LIMIT: usize = 1024;

/// The budget of a big info map, in encoded bytes.
pub const INFO_BIG_LIMIT: usize = 8192;

/// `b` may stand as a key or a value: it holds neither NUL nor backslash.
pub open spec fn is_info(b: Seq<u8>) -> bool {
    lacks(b, 0u8) && lacks(b, BACKSLASH)
}

/// The position that an [`InfoStr`] or [`InfoString`] reports for `b`: the first
/// backslash if there is one, else the first NUL.
pub open spec fn rejected_at(b: Seq<u8>, i: int) -> bool {
    if lacks(b, BACKSLASH) {
        first_at(b, 0u8, i)
    } else {
        first_at(b, BACKSLASH, i)
    }
}

/// A borrowed byte string that may stand as an info key or value.
#[derive(PartialEq, Eq, PartialOrd, Ord, Hash, Debug)]
pub struct InfoStr<'a> {
    inner: QStr<'a>,
}

/// The position of the first offending byte of a rejected [`InfoStr`].
#[derive(Clone, Copy, PartialEq, Eq, Debug)]
pub struct FromBytesError(pub usize);

impl<'a> InfoStr<'a> {
    #[verifier::type_invariant]
    spec fn wf(self) -> bool {
        is_info(self.inner@)
    }

    pub closed spec fn view(&self) -> Seq<u8> {
        self.inner@
    }

    /// Wraps `bytes`, which the caller has already checked.
    pub fn from_bytes_unchecked(bytes: &'a [u8]) -> (r: InfoStr<'a>)
        requires
            is_info(bytes@),
        ensures
            r@ == bytes@,
    {
        InfoStr { inner: QStr::from_bytes_unchecked(bytes) }
    }

    /// Wraps `bytes`, or reports the first backslash, else the first NUL.
    pub fn from_bytes(bytes: &'a [u8]) -> (r: Result<InfoStr<'a>, FromBytesError>)
        ensures
            match r {
                Ok(s) => s@ == bytes@ && is_info(bytes@),
                Err(e) => !is_info(bytes@) && rejected_at(bytes@, e.0 as int),
            },
    {
        if let Some(i) = find_byte(BACKSLASH, bytes) {
            return Err(FromBytesError(i));
        }
        match QStr::from_bytes(bytes) {
            Err(FromBytesNulError(i)) => Err(FromBytesError(i)),
            Ok(q) => Ok(InfoStr { inner: q }),
        }
    }

    pub fn as_bytes(&self) -> (r: &'a [u8])
        ensures
            r@ == self@,
            is_info(r@),
    {
        proof {
            use_type_invariant(self);
        }
        self.inner.as_bytes()
    }

    /// An owned copy of the same bytes.
    pub fn to_owned(&self) -> (r: InfoString)
        ensures
            r@ == self@,
    {
        let b = self.as_bytes();
        InfoString::from_bytes_unchecked(copy_range(b, 0, b.len()))
    }
}

/// An owned byte string that may stand as an info key or value.
#[derive(PartialEq, Eq, PartialOrd, Ord, Hash, Debug)]
pub struct InfoString {
    inner: QString,
}

/// The position of the first offending byte of a rejected [`InfoString`], and
/// the bytes handed back.
#[derive(Clone, PartialEq, Eq, Debug)]
pub struct ByteError(pub usize, pub Vec<u8>);

impl InfoString {
    #[verifier::type_invariant]
    spec fn wf(self) -> bool {
        is_info(self.inner@)
    }

    pub closed spec fn view(&self) -> Seq<u8> {
        self.inner@
    }

    /// Takes `bytes`, which the caller has already checked.
    pub fn from_bytes_unchecked(bytes: Vec<u8>) -> (r: InfoString)
        requires
            is_info(bytes@),
        ensures
            r@ == bytes@,
    {
        InfoString { inner: QString::from_bytes_unchecked(bytes) }
    }

    /// Takes `bytes`, or hands them back with the first backslash, else the
    /// first NUL.
    pub fn from_bytes(bytes: Vec<u8>) -> (r: Result<InfoString, ByteError>)
        ensures
            match r {
                Ok(s) => s@ == bytes@ && is_info(bytes@),
                Err(e) => !is_info(bytes@) && rejected_at(bytes@, e.0 as int) && e.1@ == bytes@,
            },
    {
        if let Some(i) = find_byte(BACKSLASH, bytes.as_slice()) {
            return Err(ByteError(i, bytes));
        }
        match QString::from_bytes(bytes) {
            Err(NulError(i, b)) => Err(ByteError(i, b)),
            Ok(q) => Ok(InfoString { inner: q }),
        }
    }

    pub fn as_bytes(&self) -> (r: &[u8])
        ensures
            r@ == self@,
            is_info(r@),
    {
        proof {
            use_type_invariant(self);
        }
        self.inner.as_bytes()
    }

    /// The borrowed form of the same bytes.
    pub fn as_info_str(&self) -> (r: InfoStr<'_>)
        ensures
            r@ == self@,
    {
        InfoStr::from_bytes_unchecked(self.as_bytes())
    }

    fn into_bytes(self) -> (r: Vec<u8>)
        ensures
            r@ == self@,
            is_info(r@),
    {
        let b = self.as_bytes();
        copy_range(b, 0, b.len())
    }
}

impl Clone for InfoString {
    fn clone(&self) -> (r: InfoString)
        ensures
            r@ == self@,
    {
        let b = self.as_bytes();
        InfoString::from_bytes_unchecked(copy_range(b, 0, b.len()))
    }
}

/// The encoded size of one key or value: a backslash, then its bytes.
pub open spec fn field_size(b: Seq<u8>) -> nat {
    1 + b.len()
}

/// What can stand as a key or value of an [`InfoMap`].
pub trait InfoKv {
    spec fn kv_view(&self) -> Seq<u8>;

    /// A backslash, then the bytes.
    fn encoded_size(&self) -> (r: usize)
        requires
            self.kv_view().len() < usize::MAX,
        ensures
            r == field_size(self.kv_view()),
    ;
}

impl<'a> InfoKv for InfoStr<'a> {
    open spec fn kv_view(&self) -> Seq<u8> {
        self@
    }

    fn encoded_size(&self) -> (r: usize) {
        1 + self.as_bytes().len()
    }
}

impl InfoKv for InfoString {
    open spec fn kv_view(&self) -> Seq<u8> {
        self@
    }

    fn encoded_size(&self) -> (r: usize) {
        1 + self.as_bytes().len()
    }
}


#[verifier::external_type_specification]
#[verifier::external_body]
#[verifier::reject_recursive_types(K)]
#[verifier::reject_recursive_types(V)]
#[verifier::reject_recursive_types(S)]
pub struct ExIndexMap<K, V, S>(IndexMap<K, V, S>);

/// The storage of an [`InfoMap`]: keys to values, in insertion order.
pub type Entries = IndexMap<Vec<u8>, Vec<u8>>;

/// What an [`Entries`] holds, in its order.
pub uninterp spec fn entries_of(m: Entries) -> Seq<(Seq<u8>, Seq<u8>)>;

/// No key stands twice in `es`.
pub open spec fn keys_unique(es: Seq<(Seq<u8>, Seq<u8>)>) -> bool {
    forall|i: int, j: int| 0 <= i < j < es.len() ==> es[i].0 != es[j].0
}

/// `k` stands as a key in `es`.
pub open spec fn has_key(es: Seq<(Seq<u8>, Seq<u8>)>, k: Seq<u8>) -> bool {
    exists|i: int| 0 <= i < es.len() && es[i].0 == k
}

/// The position of key `k` in `es`.
pub open spec fn key_index(es: Seq<(Seq<u8>, Seq<u8>)>, k: Seq<u8>) -> int {
    choose|i: int| 0 <= i < es.len() && es[i].0 == k
}

/// `es` after an insertion of `k` and `v`: an existing key keeps its place and
/// takes the new value, a new key goes last.
pub open spec fn inserted(es: Seq<(Seq<u8>, Seq<u8>)>, k: Seq<u8>, v: Seq<u8>) -> Seq<(Seq<u8>, Seq<u8>)> {
    if has_key(es, k) {
        es.update(key_index(es, k), (k, v))
    } else {
        es.push((k, v))
    }
}

/// Relies on indexmap::IndexMap::new: an empty map.
#[verifier::external_body]
fn entries_new() -> (r: Entries)
    ensures
        entries_of(r) == Seq::<(Seq<u8>, Seq<u8>)>::empty(),
{
    IndexMap::new()
}

/// Relies on indexmap::IndexMap::with_capacity: an empty map with room for `n` entries.
#[verifier::external_body]
fn entries_with_capacity(n: usize) -> (r: Entries)
    requires
        n <= INFO_BIG_LIMIT,
    ensures
        entries_of(r) == Seq::<(Seq<u8>, Seq<u8>)>::empty(),
{
    IndexMap::with_capacity(n)
}

/// Relies on indexmap::IndexMap::len: the number of entries.
#[verifier::external_body]
fn entries_len(m: &Entries) -> (r: usize)
    ensures
        r == entries_of(*m).len(),
{
    m.len()
}

/// Relies on indexmap::IndexMap::get_index: the entry at position `i`.
#[verifier::external_body]
fn entries_get(m: &Entries, i: usize) -> (r: Option<(&Vec<u8>, &Vec<u8>)>)
    ensures
        match r {
            Some(p) => i < entries_of(*m).len() && p.0@ == entries_of(*m)[i as int].0 && p.1@
                == entries_of(*m)[i as int].1,
            None => i >= entries_of(*m).len(),
        },
{
    m.get_index(i)
}

/// Relies on indexmap::IndexMap::insert: an existing key keeps its place and
/// its old value comes back; a new key goes last.
#[verifier::external_body]
fn entries_insert(m: &mut Entries, k: Vec<u8>, v: Vec<u8>) -> (r: Option<Vec<u8>>)
    requires
        keys_unique(entries_of(*old(m))),
    ensures
        entries_of(*final(m)) == inserted(entries_of(*old(m)), k@, v@),
        match r {
            Some(x) => has_key(entries_of(*old(m)), k@) && x@ == entries_of(*old(m))[key_index(
                entries_of(*old(m)),
                k@,
            )].1,
            None => !has_key(entries_of(*old(m)), k@),
        },
{
    m.insert(k, v)
}

/// The encoded size of one entry: `\key\value`.
pub open spec fn entry_size(e: (Seq<u8>, Seq<u8>)) -> nat {
    field_size(e.0) + field_size(e.1)
}

/// The encoded size of all of `es`.
pub open spec fn encoded_size(es: Seq<(Seq<u8>, Seq<u8>)>) -> nat
    decreases es.len(),
{
    if es.len() == 0 {
        0
    } else {
        entry_size(es[0]) + encoded_size(es.drop_first())
    }
}

/// The wire form of `es`: `\key\value` for each entry, in order.
pub open spec fn serialized(es: Seq<(Seq<u8>, Seq<u8>)>) -> Seq<u8>
    decreases es.len(),
{
    if es.len() == 0 {
        Seq::empty()
    } else {
        seq![BACKSLASH] + es[0].0 + seq![BACKSLASH] + es[0].1 + serialized(es.drop_first())
    }
}

/// Every key and value of `es` may stand in an info string.
pub open spec fn all_info(es: Seq<(Seq<u8>, Seq<u8>)>) -> bool {
    forall|i: int| 0 <= i < es.len() ==> is_info(#[trigger] es[i].0) && is_info(es[i].1)
}

/// Every key and value of `es` is non-empty.
pub open spec fn all_nonempty(es: Seq<(Seq<u8>, Seq<u8>)>) -> bool {
    forall|i: int| 0 <= i < es.len() ==> (#[trigger] es[i].0).len() > 0 && es[i].1.len() > 0
}

/// The size of the entries of `es` whose key is not `k`.
pub open spec fn size_without(es: Seq<(Seq<u8>, Seq<u8>)>, k: Seq<u8>) -> nat
    decreases es.len(),
{
    if es.len() == 0 {
        0
    } else {
        let rest = size_without(es.drop_first(), k);
        if es[0].0 == k {
            rest
        } else {
            entry_size(es[0]) + rest
        }
    }
}


proof fn lemma_size_without_le(es: Seq<(Seq<u8>, Seq<u8>)>, k: Seq<u8>)
    ensures
        size_without(es, k) <= encoded_size(es),
    decreases es.len(),
{
    if es.len() > 0 {
        lemma_size_without_le(es.drop_first(), k);
    }
}

proof fn lemma_size_push(es: Seq<(Seq<u8>, Seq<u8>)>, x: (Seq<u8>, Seq<u8>))
    ensures
        encoded_size(es.push(x)) == encoded_size(es) + entry_size(x),
    decreases es.len(),
{
    if es.len() > 0 {
        assert(es.push(x).drop_first() =~= es.drop_first().push(x));
        assert(es.push(x)[0] == es[0]);
        lemma_size_push(es.drop_first(), x);
    } else {
        assert(es.push(x).drop_first() =~= Seq::<(Seq<u8>, Seq<u8>)>::empty());
        assert(es.push(x)[0] == x);
        assert(encoded_size(es.push(x).drop_first()) == 0);
    }
}

proof fn lemma_size_without_absent(es: Seq<(Seq<u8>, Seq<u8>)>, k: Seq<u8>)
    requires
        !has_key(es, k),
    ensures
        size_without(es, k) == encoded_size(es),
    decreases es.len(),
{
    if es.len() > 0 {
        assert(es[0].0 != k) by {
            assert(0 <= 0 < es.len() && es[0].0 == k ==> has_key(es, k));
        }
        assert(!has_key(es.drop_first(), k)) by {
            if has_key(es.drop_first(), k) {
                let i = choose|i: int| 0 <= i < es.drop_first().len() && es.drop_first()[i].0 == k;
                assert(es[i + 1].0 == k);
            }
        }
        lemma_size_without_absent(es.drop_first(), k);
    }
}

proof fn lemma_size_update(es: Seq<(Seq<u8>, Seq<u8>)>, i: int, x: (Seq<u8>, Seq<u8>))
    requires
        keys_unique(es),
        0 <= i < es.len(),
        x.0 == es[i].0,
    ensures
        size_without(es, x.0) + entry_size(es[i]) == encoded_size(es),
        encoded_size(es.update(i, x)) == size_without(es, x.0) + entry_size(x),
    decreases es.len(),
{
    let k = x.0;
    if i == 0 {
        assert(!has_key(es.drop_first(), k)) by {
            if has_key(es.drop_first(), k) {
                let j = choose|j: int| 0 <= j < es.drop_first().len() && es.drop_first()[j].0 == k;
                assert(es[j + 1].0 == k);
            }
        }
        lemma_size_without_absent(es.drop_first(), k);
        assert(es.update(i, x).drop_first() =~= es.drop_first());
    } else {
        let t = es.drop_first();
        assert(keys_unique(t)) by {
            assert forall|a: int, b: int| 0 <= a < b < t.len() implies t[a].0 != t[b].0 by {
                assert(es[a + 1] == t[a] && es[b + 1] == t[b]);
            }
        }
        assert(es[0].0 != k) by {
            assert(es[0].0 != es[i].0);
        }
        lemma_size_update(t, i - 1, x);
        assert(es.update(i, x).drop_first() =~= t.update(i - 1, x));
    }
}

/// The size of `es` after an insertion of `k` and `v`.
proof fn lemma_size_inserted(es: Seq<(Seq<u8>, Seq<u8>)>, k: Seq<u8>, v: Seq<u8>)
    requires
        keys_unique(es),
    ensures
        encoded_size(inserted(es, k, v)) == size_without(es, k) + entry_size((k, v)),
        keys_unique(inserted(es, k, v)),
{
    if has_key(es, k) {
        let i = key_index(es, k);
        lemma_size_update(es, i, (k, v));
        let r = es.update(i, (k, v));
        assert forall|a: int, b: int| 0 <= a < b < r.len() implies r[a].0 != r[b].0 by {
            assert(es[a].0 == r[a].0 && es[b].0 == r[b].0);
        }
    } else {
        lemma_size_without_absent(es, k);
        lemma_size_push(es, (k, v));
        let r = es.push((k, v));
        assert forall|a: int, b: int| 0 <= a < b < r.len() implies r[a].0 != r[b].0 by {
            if b == es.len() {
                assert(es[a].0 != k) by {
                    assert(0 <= a < es.len() && es[a].0 == k ==> has_key(es, k));
                }
            }
        }
    }
}

/// `a` and `b` hold the same bytes.
pub fn bytes_eq(a: &[u8], b: &[u8]) -> (r: bool)
    ensures
        r == (a@ == b@),
{
    if a.len() != b.len() {
        return false;
    }
    let mut i: usize = 0;
    while i < a.len()
        invariant
            a@.len() == b@.len(),
            0 <= i <= a@.len(),
            a@.subrange(0, i as int) == b@.subrange(0, i as int),
        decreases a@.len() - i,
    {
        if a[i] != b[i] {
            assert(a@[i as int] != b@[i as int]);
            return false;
        }
        i += 1;
        assert(a@.subrange(0, i as int) =~= b@.subrange(0, i as int)) by {
            assert forall|j: int| 0 <= j < i implies a@[j] == b@[j] by {
                if j < i - 1 {
                    assert(a@.subrange(0, i - 1)[j] == b@.subrange(0, i - 1)[j]);
                }
            }
        }
    }
    assert(a@ =~= a@.subrange(0, i as int));
    assert(b@ =~= b@.subrange(0, i as int));
    true
}

/// The length of the leading run of `s` that holds no backslash.
pub open spec fn field_len(s: Seq<u8>) -> nat
    decreases s.len(),
{
    if s.len() == 0 || s[0] == BACKSLASH {
        0
    } else {
        1 + field_len(s.drop_first())
    }
}

/// The entries that the wire form `s` spells, `\key\value` after
/// `\key\value`, each key and value non-empty and free of NUL; `None` where `s`
/// is not of that form.
pub open spec fn parse_entries(s: Seq<u8>) -> Option<Seq<(Seq<u8>, Seq<u8>)>>
    decreases s.len(),
{
    if s.len() == 0 {
        Some(Seq::empty())
    } else if s[0] != BACKSLASH {
        None
    } else {
        let a = s.drop_first();
        let kl = field_len(a);
        if kl == 0 || kl >= a.len() {
            None
        } else {
            let k = a.subrange(0, kl as int);
            let b = a.subrange(kl + 1int, a.len() as int);
            let vl = field_len(b);
            let v = b.subrange(0, vl as int);
            if vl == 0 || vl > b.len() || !lacks(k, 0u8) || !lacks(v, 0u8) {
                None
            } else {
                match parse_entries(b.subrange(vl as int, b.len() as int)) {
                    Some(rest) => Some(seq![(k, v)] + rest),
                    None => None,
                }
            }
        }
    }
}

/// What an info map with budget `limit` parsed from `s` holds: the entries
/// that `s` spells, when their keys are unique and their size is within
/// `limit`.
pub open spec fn parsed(s: Seq<u8>, limit: nat) -> Option<Seq<(Seq<u8>, Seq<u8>)>> {
    match parse_entries(s) {
        Some(es) => if keys_unique(es) && encoded_size(es) <= limit {
            Some(es)
        } else {
            None
        },
        None => None,
    }
}

/// `Some(p + r)` for `Some(r)`, else `None`.
pub open spec fn prepend(
    p: Seq<(Seq<u8>, Seq<u8>)>,
    o: Option<Seq<(Seq<u8>, Seq<u8>)>>,
) -> Option<Seq<(Seq<u8>, Seq<u8>)>> {
    match o {
        Some(r) => Some(p + r),
        None => None,
    }
}

proof fn lemma_field_len_lacks(a: Seq<u8>, rest: Seq<u8>)
    requires
        lacks(a, BACKSLASH),
        rest.len() == 0 || rest[0] == BACKSLASH,
    ensures
        field_len(a + rest) == a.len(),
    decreases a.len(),
{
    if a.len() > 0 {
        assert((a + rest).drop_first() =~= a.drop_first() + rest);
        lemma_field_len_lacks(a.drop_first(), rest);
    } else {
        assert(a + rest =~= rest);
    }
}

proof fn lemma_field_len_bound(a: Seq<u8>)
    ensures
        field_len(a) <= a.len(),
        lacks(a.subrange(0, field_len(a) as int), BACKSLASH),
        field_len(a) < a.len() ==> a[field_len(a) as int] == BACKSLASH,
    decreases a.len(),
{
    if a.len() > 0 && a[0] != BACKSLASH {
        lemma_field_len_bound(a.drop_first());
        let l = field_len(a.drop_first());
        assert forall|j: int| 0 <= j < l + 1 implies #[trigger] a.subrange(0, l + 1int)[j] != BACKSLASH by {
            if j > 0 {
                assert(a.subrange(0, l + 1int)[j] == a.drop_first().subrange(0, l as int)[j - 1]);
            }
        }
    }
}

proof fn lemma_size_concat(a: Seq<(Seq<u8>, Seq<u8>)>, b: Seq<(Seq<u8>, Seq<u8>)>)
    ensures
        encoded_size(a + b) == encoded_size(a) + encoded_size(b),
    decreases a.len(),
{
    if a.len() > 0 {
        assert((a + b).drop_first() =~= a.drop_first() + b);
        assert((a + b)[0] == a[0]);
        lemma_size_concat(a.drop_first(), b);
    } else {
        assert(a + b =~= b);
    }
}

proof fn lemma_serialized_concat(a: Seq<(Seq<u8>, Seq<u8>)>, b: Seq<(Seq<u8>, Seq<u8>)>)
    ensures
        serialized(a + b) == serialized(a) + serialized(b),
    decreases a.len(),
{
    if a.len() > 0 {
        assert((a + b).drop_first() =~= a.drop_first() + b);
        assert((a + b)[0] == a[0]);
        lemma_serialized_concat(a.drop_first(), b);
        let h = seq![BACKSLASH] + a[0].0 + seq![BACKSLASH] + a[0].1;
        assert(h + (serialized(a.drop_first()) + serialized(b)) =~= (h + serialized(a.drop_first()))
            + serialized(b));
    } else {
        assert(a + b =~= b);
        assert(serialized(a) + serialized(b) =~= serialized(b));
    }
}

proof fn lemma_serialized_len(es: Seq<(Seq<u8>, Seq<u8>)>)
    ensures
        serialized(es).len() == encoded_size(es),
    decreases es.len(),
{
    if es.len() > 0 {
        lemma_serialized_len(es.drop_first());
    }
}

/// The wire form of entries that may stand in an info string, each key and
/// value non-empty, parses back to the same entries.
proof fn lemma_parse_serialized(es: Seq<(Seq<u8>, Seq<u8>)>)
    requires
        all_info(es),
        all_nonempty(es),
    ensures
        parse_entries(serialized(es)) == Some(es),
    decreases es.len(),
{
    if es.len() > 0 {
        let t = es.drop_first();
        assert(all_info(t) && all_nonempty(t)) by {
            assert forall|i: int| 0 <= i < t.len() implies is_info(#[trigger] t[i].0) && is_info(
                t[i].1,
            ) && t[i].0.len() > 0 && t[i].1.len() > 0 by {
                assert(t[i] == es[i + 1]);
            }
        }
        lemma_parse_serialized(t);
        let (k, v) = es[0];
        assert(is_info(es[0].0) && is_info(es[0].1) && es[0].0.len() > 0 && es[0].1.len() > 0);
        let r = serialized(t);
        assert(r.len() == 0 || r[0] == BACKSLASH);
        let s = serialized(es);
        let a = s.drop_first();
        assert(a =~= k + (seq![BACKSLASH] + v + r));
        lemma_field_len_lacks(k, seq![BACKSLASH] + v + r);
        let kl = field_len(a);
        assert(a.subrange(0, kl as int) =~= k);
        let b = a.subrange(kl + 1int, a.len() as int);
        assert(b =~= v + r);
        lemma_field_len_lacks(v, r);
        assert(b.subrange(0, v.len() as int) =~= v);
        assert(b.subrange(v.len() as int, b.len() as int) =~= r);
        assert(seq![(k, v)] + t =~= es);
    } else {
        assert(serialized(es) =~= Seq::<u8>::empty());
    }
}

/// Entries parsed from `s` serialize back to `s`, and each key and value is
/// non-empty and may stand in an info string.
proof fn lemma_serialized_parse(s: Seq<u8>)
    requires
        parse_entries(s) is Some,
    ensures
        serialized(parse_entries(s).unwrap()) == s,
        all_info(parse_entries(s).unwrap()),
        all_nonempty(parse_entries(s).unwrap()),
    decreases s.len(),
{
    let es = parse_entries(s).unwrap();
    if s.len() > 0 {
        let a = s.drop_first();
        let kl = field_len(a);
        lemma_field_len_bound(a);
        let k = a.subrange(0, kl as int);
        let b = a.subrange(kl + 1int, a.len() as int);
        let vl = field_len(b);
        lemma_field_len_bound(b);
        let v = b.subrange(0, vl as int);
        let c = b.subrange(vl as int, b.len() as int);
        lemma_serialized_parse(c);
        let rest = parse_entries(c).unwrap();
        assert(es == seq![(k, v)] + rest);
        assert(es[0] == (k, v));
        assert(es.drop_first() =~= rest);
        assert(a[kl as int] == BACKSLASH);
        assert(s =~= seq![BACKSLASH] + k + seq![BACKSLASH] + v + c);
        assert forall|i: int| 0 <= i < es.len() implies is_info(#[trigger] es[i].0) && is_info(
            es[i].1,
        ) && es[i].0.len() > 0 && es[i].1.len() > 0 by {
            if i > 0 {
                assert(es[i] == rest[i - 1]);
            }
        }
    } else {
        assert(es =~= Seq::<(Seq<u8>, Seq<u8>)>::empty());
    }
}

/// Serializing entries that an info map may hold, each key and value
/// non-empty, then parsing the result under the same budget gives the same
/// entries back.
pub proof fn law_parse_of_serialize(es: Seq<(Seq<u8>, Seq<u8>)>, limit: nat)
    requires
        keys_unique(es),
        all_info(es),
        all_nonempty(es),
        encoded_size(es) <= limit,
    ensures
        parsed(serialized(es), limit) == Some(es),
{
    lemma_parse_serialized(es);
}

/// Whatever parses serializes back to the very same bytes.
pub proof fn law_serialize_of_parse(s: Seq<u8>, limit: nat)
    requires
        parsed(s, limit) is Some,
    ensures
        serialized(parsed(s, limit).unwrap()) == s,
{
    lemma_serialized_parse(s);
}

/// A key that does not fit: the rejected key and value, handed back.
#[derive(Clone, Copy, PartialEq, Eq, PartialOrd, Ord, Hash, Debug)]
pub struct LimitError<K, V>(pub K, pub V);

/// An info string that cannot be parsed.
#[derive(Clone, Copy, PartialEq, Eq, Debug)]
pub struct ParseError;

/// A map of info keys to values that keeps insertion order and whose encoded
/// size never exceeds `L` bytes.
pub struct InfoMap<const L: usize> {
    entries: Entries,
}

impl<const L: usize> InfoMap<L> {
    #[verifier::type_invariant]
    spec fn wf(self) -> bool {
        &&& keys_unique(entries_of(self.entries))
        &&& all_info(entries_of(self.entries))
        &&& encoded_size(entries_of(self.entries)) <= L
    }

    /// The entries, in insertion order.
    pub closed spec fn view(&self) -> Seq<(Seq<u8>, Seq<u8>)> {
        entries_of(self.entries)
    }

    pub fn new() -> (r: InfoMap<L>)
        ensures
            r@ == Seq::<(Seq<u8>, Seq<u8>)>::empty(),
    {
        InfoMap { entries: entries_new() }
    }

    pub fn with_capacity(n: usize) -> (r: InfoMap<L>)
        requires
            n <= INFO_BIG_LIMIT,
        ensures
            r@ == Seq::<(Seq<u8>, Seq<u8>)>::empty(),
    {
        InfoMap { entries: entries_with_capacity(n) }
    }

    /// The budget, in encoded bytes.
    pub fn limit(&self) -> (r: usize)
        ensures
            r == L,
    {
        L
    }

    pub fn len(&self) -> (r: usize)
        ensures
            r == self@.len(),
    {
        entries_len(&self.entries)
    }

    /// The encoded size of the entries whose key is not `k`.
    fn size_without_key(&self, k: &[u8]) -> (r: usize)
        ensures
            r == size_without(self@, k@),
    {
        proof {
            use_type_invariant(self);
            lemma_size_without_le(self@, k@);
        }
        let n = entries_len(&self.entries);
        let ghost es = self@;
        let mut acc: usize = 0;
        let mut j: usize = 0;
        assert(es.subrange(0, n as int) =~= es);
        while j < n
            invariant
                n == es.len(),
                es == self@,
                j <= n,
                size_without(es, k@) <= L,
                acc + size_without(es.subrange(j as int, n as int), k@) == size_without(es, k@),
            decreases n - j,
        {
            let (key, value) = entries_get(&self.entries, j).unwrap();
            assert(es.subrange(j as int, n as int).drop_first() =~= es.subrange(j + 1, n as int));
            if !bytes_eq(key.as_slice(), k) {
                acc = acc + 1 + key.len() + 1 + value.len();
            }
            j += 1;
        }
        acc
    }

    /// Inserts `key` with `value`, unless the map would then exceed `L`
    /// encoded bytes. An existing key keeps its place and its old value comes
    /// back; a refused pair comes back in the error and the map is unchanged.
    pub fn try_insert(&mut self, key: InfoString, value: InfoString) -> (r: Result<
        Option<InfoString>,
        LimitError<InfoString, InfoString>,
    >)
        ensures
            match r {
                Ok(prev) => {
                    &&& encoded_size(inserted(old(self)@, key@, value@)) <= L
                    &&& final(self)@ == inserted(old(self)@, key@, value@)
                    &&& serialized(final(self)@).len() <= L
                    &&& match prev {
                        Some(x) => has_key(old(self)@, key@) && x@ == old(self)@[key_index(
                            old(self)@,
                            key@,
                        )].1,
                        None => !has_key(old(self)@, key@),
                    }
                },
                Err(e) => {
                    &&& encoded_size(inserted(old(self)@, key@, value@)) > L
                    &&& serialized(inserted(old(self)@, key@, value@)).len() > L
                    &&& final(self)@ == old(self)@
                    &&& e.0@ == key@
                    &&& e.1@ == value@
                },
            },
    {
        proof {
            use_type_invariant(&*self);
            lemma_size_inserted(self@, key@, value@);
            lemma_size_without_le(self@, key@);
            lemma_serialized_len(inserted(self@, key@, value@));
        }
        let size = self.size_without_key(key.as_bytes());
        let room = L - size;
        let klen = key.as_bytes().len();
        let vlen = value.as_bytes().len();
        if klen >= room || vlen >= room - klen - 1 {
            return Err(LimitError(key, value));
        }
        let ghost es = self@;
        let k = key.into_bytes();
        let v = value.into_bytes();
        let mut store = entries_new();
        std::mem::swap(&mut self.entries, &mut store);
        let prev = entries_insert(&mut store, k, v);
        proof {
            let r = inserted(es, k@, v@);
            assert forall|i: int| 0 <= i < r.len() implies is_info(#[trigger] r[i].0) && is_info(
                r[i].1,
            ) by {
                if has_key(es, k@) {
                    if i != key_index(es, k@) {
                        assert(r[i] == es[i]);
                    }
                } else {
                    if i < es.len() {
                        assert(r[i] == es[i]);
                    }
                }
            }
        }
        std::mem::swap(&mut self.entries, &mut store);
        match prev {
            Some(x) => {
                proof {
                    assert(is_info(es[key_index(es, k@)].1));
                }
                Ok(Some(InfoString::from_bytes_unchecked(x)))
            },
            None => Ok(None),
        }
    }

    /// The key and value at position `i`.
    pub fn get_index(&self, i: usize) -> (r: Option<(InfoStr<'_>, InfoStr<'_>)>)
        ensures
            match r {
                Some(p) => i < self@.len() && p.0@ == self@[i as int].0 && p.1@ == self@[i as int].1,
                None => i >= self@.len(),
            },
    {
        proof {
            use_type_invariant(self);
        }
        match entries_get(&self.entries, i) {
            Some((k, v)) => {
                proof {
                    assert(is_info(self@[i as int].0) && is_info(self@[i as int].1));
                }
                Some((InfoStr::from_bytes_unchecked(k.as_slice()), InfoStr::from_bytes_unchecked(v.as_slice())))
            },
            None => None,
        }
    }

    /// Copies of the entries, in insertion order.
    pub fn iter(&self) -> (r: Vec<(InfoString, InfoString)>)
        ensures
            r@.len() == self@.len(),
            forall|i: int| 0 <= i < r@.len() ==> (#[trigger] r@[i]).0@ == self@[i].0 && r@[i].1@ == self@[i].1,
    {
        let n = self.len();
        let mut r: Vec<(InfoString, InfoString)> = Vec::with_capacity(n);
        let mut i: usize = 0;
        while i < n
            invariant
                n == self@.len(),
                i <= n,
                r@.len() == i,
                forall|j: int| 0 <= j < i ==> (#[trigger] r@[j]).0@ == self@[j].0 && r@[j].1@ == self@[j].1,
            decreases n - i,
        {
            let (k, v) = self.get_index(i).unwrap();
            r.push((k.to_owned(), v.to_owned()));
            i += 1;
        }
        r
    }

    /// An independent copy of this map.
    pub fn to_owned(&self) -> (r: InfoMap<L>)
        ensures
            r@ == self@,
    {
        proof {
            use_type_invariant(self);
        }
        let n = self.len();
        let mut store = entries_new();
        let mut i: usize = 0;
        while i < n
            invariant
                n == self@.len(),
                i <= n,
                keys_unique(self@),
                all_info(self@),
                encoded_size(self@) <= L,
                entries_of(store) == self@.subrange(0, i as int),
            decreases n - i,
        {
            let (k, v) = entries_get(&self.entries, i).unwrap();
            let ghost es = entries_of(store);
            proof {
                assert(keys_unique(es));
                assert(!has_key(es, k@)) by {
                    if has_key(es, k@) {
                        let j = choose|j: int| 0 <= j < es.len() && es[j].0 == k@;
                        assert(self@[j].0 == self@[i as int].0);
                    }
                }
            }
            let kc = copy_range(k.as_slice(), 0, k.len());
            let vc = copy_range(v.as_slice(), 0, v.len());
            assert(kc@ =~= self@[i as int].0);
            assert(vc@ =~= self@[i as int].1);
            entries_insert(&mut store, kc, vc);
            assert(entries_of(store) == es.push(self@[i as int]));
            i += 1;
            assert(entries_of(store) =~= self@.subrange(0, i as int));
        }
        assert(self@.subrange(0, n as int) =~= self@);
        InfoMap { entries: store }
    }

    /// Parses the wire form `bytes`: zero or more `\key\value` groups, each
    /// key and value non-empty and free of NUL, no key twice, within `L`
    /// encoded bytes.
    pub fn parse(bytes: &[u8]) -> (r: Result<InfoMap<L>, ParseError>)
        ensures
            match r {
                Ok(m) => parsed(bytes@, L as nat) == Some(m@),
                Err(_) => parsed(bytes@, L as nat) is None,
            },
    {
        let n = bytes.len();
        let ghost s = bytes@;
        let mut m = InfoMap::<L>::new();
        let mut i: usize = 0;
        assert(s.subrange(0, n as int) =~= s);
        proof {
            if parse_entries(s) is Some {
                assert(m@ + parse_entries(s).unwrap() =~= parse_entries(s).unwrap());
            }
        }
        while i < n
            invariant
                n == s.len(),
                s == bytes@,
                i <= n,
                parse_entries(s) == prepend(m@, parse_entries(s.subrange(i as int, n as int))),
            decreases n - i,
        {
            proof {
                use_type_invariant(&m);
            }
            let ghost sub = s.subrange(i as int, n as int);
            if bytes[i] != BACKSLASH {
                return Err(ParseError);
            }
            let ks = i + 1;
            let mut j = ks;
            while j < n && bytes[j] != BACKSLASH
                invariant
                    n == s.len(),
                    s == bytes@,
                    ks <= j <= n,
                    lacks(s.subrange(ks as int, j as int), BACKSLASH),
                decreases n - j,
            {
                j += 1;
                assert(s.subrange(ks as int, j as int) =~= s.subrange(ks as int, j - 1) + seq![s[j - 1]]);
            }
            let ghost a = sub.drop_first();
            proof {
                assert(a =~= s.subrange(ks as int, j as int) + s.subrange(j as int, n as int));
                lemma_field_len_lacks(s.subrange(ks as int, j as int), s.subrange(j as int, n as int));
            }
            if j == ks || j == n {
                return Err(ParseError);
            }
            let vs = j + 1;
            let mut e = vs;
            while e < n && bytes[e] != BACKSLASH
                invariant
                    n == s.len(),
                    s == bytes@,
                    vs <= e <= n,
                    lacks(s.subrange(vs as int, e as int), BACKSLASH),
                decreases n - e,
            {
                e += 1;
                assert(s.subrange(vs as int, e as int) =~= s.subrange(vs as int, e - 1) + seq![s[e - 1]]);
            }
            let ghost b = a.subrange(j - ks + 1, a.len() as int);
            let ghost k = s.subrange(ks as int, j as int);
            let ghost v = s.subrange(vs as int, e as int);
            proof {
                assert(a.subrange(0, j - ks) =~= k);
                assert(b =~= v + s.subrange(e as int, n as int));
                lemma_field_len_lacks(v, s.subrange(e as int, n as int));
                assert(b.subrange(0, e - vs) =~= v);
                assert(b.subrange(e - vs, b.len() as int) =~= s.subrange(e as int, n as int));
            }
            if e == vs {
                return Err(ParseError);
            }
            let key = match InfoString::from_bytes(copy_range(bytes, ks, j)) {
                Ok(x) => x,
                Err(_) => return Err(ParseError),
            };
            let value = match InfoString::from_bytes(copy_range(bytes, vs, e)) {
                Ok(x) => x,
                Err(_) => return Err(ParseError),
            };
            let ghost before = m@;
            let ghost kv = (k, v);
            let ghost tail = parse_entries(s.subrange(e as int, n as int));
            proof {
                assert(parse_entries(sub) == prepend(seq![kv], tail));
                if tail is Some {
                    let es = before + (seq![kv] + tail.unwrap());
                    if has_key(before, k) {
                        let x = key_index(before, k);
                        assert(es[x].0 == es[before.len() as int].0);
                    }
                    lemma_size_concat(before.push(kv), tail.unwrap());
                    assert(es =~= before.push(kv) + tail.unwrap());
                }
            }
            match m.try_insert(key, value) {
                Ok(None) => {},
                _ => {
                    return Err(ParseError);
                },
            }
            proof {
                if tail is Some {
                    assert(before + (seq![kv] + tail.unwrap()) =~= m@ + tail.unwrap());
                }
            }
            i = e;
        }
        proof {
            use_type_invariant(&m);
            assert(s.subrange(n as int, n as int) =~= Seq::<u8>::empty());
            assert(m@ + Seq::<(Seq<u8>, Seq<u8>)>::empty() =~= m@);
        }
        Ok(m)
    }

    /// The wire form: `\key\value` for each entry, in insertion order.
    pub fn serialize(&self) -> (r: Vec<u8>)
        ensures
            r@ == serialized(self@),
            r@.len() <= L,
    {
        proof {
            use_type_invariant(self);
            lemma_serialized_len(self@);
        }
        let n = self.len();
        let mut r: Vec<u8> = Vec::new();
        let mut i: usize = 0;
        assert(serialized(self@.subrange(0, 0)) =~= Seq::<u8>::empty());
        while i < n
            invariant
                n == self@.len(),
                i <= n,
                r@ == serialized(self@.subrange(0, i as int)),
            decreases n - i,
        {
            let (k, v) = entries_get(&self.entries, i).unwrap();
            let ghost before = r@;
            r.push(BACKSLASH);
            append(&mut r, k.as_slice());
            r.push(BACKSLASH);
            append(&mut r, v.as_slice());
            proof {
                let x = self@[i as int];
                lemma_serialized_concat(self@.subrange(0, i as int), seq![x]);
                assert(self@.subrange(0, i + 1) =~= self@.subrange(0, i as int) + seq![x]);
                assert(seq![x].drop_first() =~= Seq::<(Seq<u8>, Seq<u8>)>::empty());
                assert(serialized(seq![x].drop_first()) =~= Seq::<u8>::empty());
                assert(seq![x][0] == x);
                assert(serialized(seq![x]) =~= seq![BACKSLASH] + x.0 + seq![BACKSLASH] + x.1);
                assert(r@ =~= before + serialized(seq![x]));
            }
            i += 1;
        }
        assert(self@.subrange(0, n as int) =~= self@);
        r
    }
}

/// Appends the bytes of `b` to `r`.
pub fn append(r: &mut Vec<u8>, b: &[u8])
    ensures
        final(r)@ == old(r)@ + b@,
{
    let mut i: usize = 0;
    while i < b.len()
        invariant
            i <= b@.len(),
            r@ == old(r)@ + b@.subrange(0, i as int),
        decreases b@.len() - i,
    {
        r.push(b[i]);
        i += 1;
        assert(r@ =~= old(r)@ + b@.subrange(0, i as int));
    }
    assert(b@.subrange(0, i as int) =~= b@);
}

} // verus!
