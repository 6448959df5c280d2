use vstd::prelude::*;
use vstd::string::StringSliceAdditionalSpecFns;

verus! {

/// The largest number of bytes that a `Hex` keeps inline.
pub const INLINE: usize = 24;

/// Binary data carried by a vertex: short data is kept inline, longer data on the heap.
/// The two forms hold the same byte sequence to every reader.
#[derive(Clone, Debug)]
pub enum Hex {
    Vector(Vec<u8>),
    Bytes([u8; 24], usize),
}

impl View for Hex {
    type V = Seq<u8>;

    /// The bytes, whichever form holds them; an inline length past the buffer is cut to it.
    open spec fn view(&self) -> Seq<u8> {
        match self {
            Hex::Vector(v) => v@,
            Hex::Bytes(b, n) => b@.take(if *n <= INLINE { *n as int } else { INLINE as int }),
        }
    }
}

impl Hex {
    /// No bytes at all.
    pub fn empty() -> (r: Hex)
        ensures
            r@ == Seq::<u8>::empty(),
    {
        Hex::Bytes([0u8; 24], 0)
    }

    /// The bytes of `v`, kept inline where they fit.
    pub fn from_vec(v: Vec<u8>) -> (r: Hex)
        ensures
            r@ == v@,
    {
        if v.len() <= INLINE {
            let mut b = [0u8; 24];
            let mut i: usize = 0;
            while i < v.len()
                invariant
                    v.len() <= INLINE,
                    i <= v.len(),
                    forall|j: int| 0 <= j < i ==> b@[j] == v@[j],
                decreases v.len() - i,
            {
                b[i] = v[i];
                i = i + 1;
            }
            let r = Hex::Bytes(b, v.len());
            assert(r@ =~= v@);
            r
        } else {
            Hex::Vector(v)
        }
    }

    /// The bytes of a slice.
    pub fn from_slice(s: &[u8]) -> (r: Hex)
        ensures
            r@ == s@,
    {
        let mut v: Vec<u8> = Vec::new();
        let mut i: usize = 0;
        while i < s.len()
            invariant
                i <= s.len(),
                v@ == s@.take(i as int),
            decreases s.len() - i,
        {
            v.push(s[i]);
            i = i + 1;
            assert(v@ =~= s@.take(i as int));
        }
        assert(v@ =~= s@);
        Hex::from_vec(v)
    }

    /// The UTF-8 bytes of a text.
    pub fn from_str_bytes(s: &str) -> (r: Hex)
        ensures
            r@ == s.spec_bytes(),
    {
        Hex::from_slice(s.as_bytes())
    }

    /// How many bytes there are.
    pub fn len(&self) -> (r: usize)
        ensures
            r == self@.len(),
    {
        match self {
            Hex::Vector(v) => v.len(),
            Hex::Bytes(_, n) => if *n <= INLINE { *n } else { INLINE },
        }
    }

    /// Whether there are no bytes.
    pub fn is_empty(&self) -> (r: bool)
        ensures
            r == (self@.len() == 0),
    {
        self.len() == 0
    }

    /// The byte at position `i`.
    pub fn byte_at(&self, i: usize) -> (r: u8)
        requires
            i < self@.len(),
        ensures
            r == self@[i as int],
    {
        match self {
            Hex::Vector(v) => v[i],
            Hex::Bytes(b, _) => b[i],
        }
    }

    /// The bytes as a vector.
    pub fn to_vec(&self) -> (r: Vec<u8>)
        ensures
            r@ == self@,
    {
        let n = self.len();
        let mut v: Vec<u8> = Vec::new();
        let mut i: usize = 0;
        while i < n
            invariant
                n == self@.len(),
                i <= n,
                v@ == self@.take(i as int),
            decreases n - i,
        {
            v.push(self.byte_at(i));
            i = i + 1;
            assert(v@ =~= self@.take(i as int));
        }
        assert(v@ =~= self@);
        v
    }

    /// A copy holding the same bytes.
    pub fn duplicate(&self) -> (r: Hex)
        ensures
            r@ == self@,
    {
        Hex::from_vec(self.to_vec())
    }

    /// Whether both hold the same bytes, whatever their forms.
    pub fn same(&self, o: &Hex) -> (r: bool)
        ensures
            r == (self@ == o@),
    {
        let n = self.len();
        if n != o.len() {
            return false;
        }
        let mut i: usize = 0;
        while i < n
            invariant
                n == self@.len(),
                n == o@.len(),
                i <= n,
                forall|j: int| 0 <= j < i ==> self@[j] == o@[j],
            decreases n - i,
        {
            if self.byte_at(i) != o.byte_at(i) {
                return false;
            }
            i = i + 1;
        }
        assert(self@ =~= o@);
        true
    }
}

impl PartialEq for Hex {
    fn eq(&self, o: &Hex) -> (r: bool) {
        self.same(o)
    }
}

impl vstd::std_specs::cmp::PartialEqSpecImpl for Hex {
    open spec fn obeys_eq_spec() -> bool {
        true
    }

    open spec fn eq_spec(&self, o: &Hex) -> bool {
        self@ == o@
    }
}

} // verus!
