//! Byte strings that hold no NUL byte, borrowed ([`QStr`]) and owned ([`QString`]).
use vstd::prelude::*;

verus! {

/// `b` holds no byte equal to `x`.
pub open spec fn lacks(b: Seq<u8>, x: u8) -> bool {
    forall|j: int| 0 <= j < b.len() ==> b[j] != x
}

/// `i` is the position of the first byte equal to `x` in `b`.
pub open spec fn first_at(b: Seq<u8>, x: u8, i: int) -> bool {
    &&& 0 <= i < b.len()
    &&& b[i] == x
    &&& lacks(b.subrange(0, i), x)
}

/// Relies on memchr::memchr: the index of the first occurrence of `needle`,
/// or `None` when `haystack` holds none.
#[verifier::external_body]
pub(crate) fn find_byte(needle: u8, haystack: &[u8]) -> (r: Option<usize>)
    ensures
        match r {
            None => lacks(haystack@, needle),
            Some(i) => first_at(haystack@, needle, i as int),
        },
{
    memchr::memchr(needle, haystack)
}

/// A fresh vector holding `b[start..end]`.
pub fn copy_range(b: &[u8], start: usize, end: usize) -> (r: Vec<u8>)
    requires
        start <= end <= b@.len(),
    ensures
        r@ == b@.subrange(start as int, end as int),
{
    let mut r: Vec<u8> = Vec::with_capacity(end - start);
    let mut i: usize = start;
    while i < end
        invariant
            start <= i <= end <= b@.len(),
            r@ == b@.subrange(start as int, i as int),
        decreases end - i,
    {
        r.push(b[i]);
        i += 1;
        assert(r@ =~= b@.subrange(start as int, i as int));
    }
    r
}

/// A borrowed byte string with no NUL byte in it, and no terminating NUL either.
#[derive(PartialEq, Eq, PartialOrd, Ord, Hash, Debug)]
pub struct QStr<'a> {
    bytes: &'a [u8],
}

/// The position of the first NUL byte of a rejected [`QStr`].
#[derive(Clone, Copy, PartialEq, Eq, Debug)]
pub struct FromBytesNulError(pub usize);

impl<'a> QStr<'a> {
    #[verifier::type_invariant]
    spec fn wf(self) -> bool {
        lacks(self.bytes@, 0u8)
    }

    pub closed spec fn view(&self) -> Seq<u8> {
        self.bytes@
    }

    /// Wraps `bytes`, which the caller has already checked to hold no NUL.
    pub fn from_bytes_unchecked(bytes: &'a [u8]) -> (r: QStr<'a>)
        requires
            lacks(bytes@, 0u8),
        ensures
            r@ == bytes@,
    {
        QStr { bytes }
    }

    /// Wraps `bytes`, or gives the position of its first NUL.
    pub fn from_bytes(bytes: &'a [u8]) -> (r: Result<QStr<'a>, FromBytesNulError>)
        ensures
            match r {
                Ok(s) => s@ == bytes@ && lacks(bytes@, 0u8),
                Err(e) => first_at(bytes@, 0u8, e.0 as int),
            },
    {
        match find_byte(0u8, bytes) {
            Some(i) => Err(FromBytesNulError(i)),
            None => Ok(QStr { bytes }),
        }
    }

    pub fn as_bytes(&self) -> (r: &'a [u8])
        ensures
            r@ == self@,
            lacks(r@, 0u8),
    {
        proof {
            use_type_invariant(self);
        }
        self.bytes
    }

    pub fn len(&self) -> (r: usize)
        ensures
            r == self@.len(),
    {
        self.bytes.len()
    }
}

/// An owned byte string with no NUL byte in it, and no terminating NUL either.
#[derive(PartialEq, Eq, PartialOrd, Ord, Hash, Debug)]
pub struct QString {
    bytes: Vec<u8>,
}

/// The position of the first NUL byte of a rejected [`QString`], and the bytes
/// handed back.
#[derive(Clone, PartialEq, Eq, Debug)]
pub struct NulError(pub usize, pub Vec<u8>);

impl QString {
    #[verifier::type_invariant]
    spec fn wf(self) -> bool {
        lacks(self.bytes@, 0u8)
    }

    pub closed spec fn view(&self) -> Seq<u8> {
        self.bytes@
    }

    /// Takes `bytes`, which the caller has already checked to hold no NUL.
    pub fn from_bytes_unchecked(bytes: Vec<u8>) -> (r: QString)
        requires
            lacks(bytes@, 0u8),
        ensures
            r@ == bytes@,
    {
        QString { bytes }
    }

    /// Takes `bytes`, or hands them back with the position of their first NUL.
    pub fn from_bytes(bytes: Vec<u8>) -> (r: Result<QString, NulError>)
        ensures
            match r {
                Ok(s) => s@ == bytes@ && lacks(bytes@, 0u8),
                Err(e) => first_at(bytes@, 0u8, e.0 as int) && e.1@ == bytes@,
            },
    {
        match find_byte(0u8, bytes.as_slice()) {
            Some(i) => Err(NulError(i, bytes)),
            None => Ok(QString { bytes }),
        }
    }

    pub fn as_bytes(&self) -> (r: &[u8])
        ensures
            r@ == self@,
            lacks(r@, 0u8),
    {
        proof {
            use_type_invariant(self);
        }
        self.bytes.as_slice()
    }

    /// The borrowed form of the same bytes.
    pub fn as_qstr(&self) -> (r: QStr<'_>)
        ensures
            r@ == self@,
    {
        QStr::from_bytes_unchecked(self.as_bytes())
    }

    pub fn len(&self) -> (r: usize)
        ensures
            r == self@.len(),
    {
        self.bytes.len()
    }
}

impl Clone for QString {
    fn clone(&self) -> (r: QString)
        ensures
            r@ == self@,
    {
        let b = self.as_bytes();
        QString::from_bytes_unchecked(copy_range(b, 0, b.len()))
    }
}

impl<'a> QStr<'a> {
    /// An owned copy of the same bytes.
    pub fn to_owned(&self) -> (r: QString)
        ensures
            r@ == self@,
    {
        let b = self.as_bytes();
        QString::from_bytes_unchecked(copy_range(b, 0, b.len()))
    }
}

} // verus!
