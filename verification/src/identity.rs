use vstd::prelude::*;

verus! {

/// An opaque caller credential: at most 29 significant bytes, held with
/// their count in a fixed buffer. Two identities are the same when the
/// count and the whole buffer agree.
#[derive(Clone, Copy, Debug, PartialEq, Eq)]
pub struct Identity {
    len: u8,
    bytes: [u8; 29],
}

/// The bytes that the textual form of a principal stands for, or `None`
/// where the text is not the textual form of any principal.
pub uninterp spec fn principal_text_bytes(text: Seq<char>) -> Option<Seq<u8>>;

/// Calls `candid::Principal::from_text` and hands out the significant
/// bytes of the principal it parsed (`Principal::as_slice`). The parser
/// is not verified: its result is only named. It never accepts more than
/// 29 bytes, which is the capacity of a principal.
#[verifier::external_body]
fn parse_principal(text: &str) -> (r: Option<Vec<u8>>)
    ensures
        r.is_some() == principal_text_bytes(text@).is_some(),
        r.is_some() ==> r.unwrap()@ == principal_text_bytes(text@).unwrap(),
        r.is_some() ==> r.unwrap()@.len() <= 29,
{
    match candid::Principal::from_text(text) {
        Ok(p) => Some(p.as_slice().to_vec()),
        Err(_) => None,
    }
}

impl Identity {
    #[verifier::type_invariant]
    closed spec fn well_formed(self) -> bool {
        self.canonical()
    }

    /// The significant bytes.
    pub closed spec fn key(&self) -> Seq<u8> {
        self.bytes@.take(self.len as int)
    }

    /// The buffer holds zeros behind the significant bytes, so that equal
    /// byte strings are the same identity.
    pub closed spec fn canonical(&self) -> bool {
        &&& self.len <= 29
        &&& forall|i: int| self.len <= i < 29 ==> self.bytes@[i] == 0u8
    }

    /// Two canonical identities with the same bytes are the same identity.
    pub proof fn canonical_is_unique(a: Identity, b: Identity)
        requires
            a.canonical(),
            b.canonical(),
            a.key() == b.key(),
        ensures
            a == b,
    {
        assert(a.bytes@.len() == 29 && b.bytes@.len() == 29);
        assert(a.key().len() == a.len && b.key().len() == b.len);
        assert(a.len == b.len);
        assert forall|i: int| 0 <= i < 29 implies a.bytes@[i] == b.bytes@[i] by {
            if i < a.len {
                assert(a.key()[i] == a.bytes@[i]);
                assert(b.key()[i] == b.bytes@[i]);
            }
        }
        assert(a.bytes@ =~= b.bytes@);
        assert(a.bytes =~= b.bytes);
    }

    /// The identity with the given bytes; `None` where there are more than 29.
    pub fn from_bytes(src: &Vec<u8>) -> (r: Option<Identity>)
        ensures
            r.is_some() <==> src@.len() <= 29,
            r.is_some() ==> r.unwrap().canonical() && r.unwrap().key() == src@,
    {
        if src.len() > 29 {
            return None;
        }
        let mut bytes: [u8; 29] = [0u8; 29];
        let mut i: usize = 0;
        while i < src.len()
            invariant
                i <= src@.len() <= 29,
                forall|j: int| 0 <= j < i ==> bytes@[j] == src@[j],
                forall|j: int| i <= j < 29 ==> bytes@[j] == 0u8,
            decreases src@.len() - i,
        {
            bytes[i] = src[i];
            i += 1;
        }
        let r = Identity { len: src.len() as u8, bytes };
        assert(r.key() =~= src@);
        Some(r)
    }

    /// The significant bytes, as a vector.
    pub fn to_bytes(&self) -> (r: Vec<u8>)
        ensures
            r@ == self.key(),
    {
        proof {
            use_type_invariant(self);
        }
        let mut out: Vec<u8> = Vec::new();
        let mut i: usize = 0;
        let n: usize = self.len as usize;
        while i < n
            invariant
                i <= n <= 29,
                n == self.len,
                out@ == self.bytes@.take(i as int),
            decreases n - i,
        {
            out.push(self.bytes[i]);
            assert(self.bytes@.take(i + 1) =~= self.bytes@.take(i as int).push(self.bytes@[i as int]));
            i += 1;
        }
        out
    }

    /// The identity that a principal's textual form stands for.
    pub fn from_text(text: &str) -> (r: Option<Identity>)
        ensures
            r.is_some() == principal_text_bytes(text@).is_some(),
            r.is_some() ==> r.unwrap().canonical() && r.unwrap().key()
                == principal_text_bytes(text@).unwrap(),
    {
        match parse_principal(text) {
            Some(bytes) => Identity::from_bytes(&bytes),
            None => None,
        }
    }

    /// The identity of a caller that has not authenticated: the single byte 4.
    pub fn anonymous() -> (r: Identity)
        ensures
            r.canonical(),
            r.key() == seq![4u8],
    {
        let mut bytes: [u8; 29] = [0u8; 29];
        bytes[0] = 4;
        let r = Identity { len: 1, bytes };
        assert(r.key() =~= seq![4u8]);
        r
    }

    /// Whether two identities are the same.
    pub fn same(&self, other: &Identity) -> (r: bool)
        ensures
            r == (*self == *other),
    {
        if self.len != other.len {
            return false;
        }
        let mut i: usize = 0;
        while i < 29
            invariant
                i <= 29,
                forall|j: int| 0 <= j < i ==> self.bytes@[j] == other.bytes@[j],
            decreases 29 - i,
        {
            if self.bytes[i] != other.bytes[i] {
                return false;
            }
            i += 1;
        }
        assert(self.bytes@ =~= other.bytes@);
        assert(self.bytes =~= other.bytes);
        true
    }
}

/// Whether no identity stands twice in the list.
pub fn all_distinct(list: &Vec<Identity>) -> (r: bool)
    ensures
        r == list@.no_duplicates(),
{
    let mut j: usize = 0;
    while j < list.len()
        invariant
            j <= list@.len(),
            forall|p: int, q: int| 0 <= p < q < j ==> list@[p] != list@[q],
        decreases list@.len() - j,
    {
        let mut i: usize = 0;
        while i < j
            invariant
                i <= j < list@.len(),
                forall|p: int| 0 <= p < i ==> list@[p] != list@[j as int],
            decreases j - i,
        {
            if list[i].same(&list[j]) {
                assert(list@[i as int] == list@[j as int]);
                return false;
            }
            i += 1;
        }
        j += 1;
    }
    assert forall|p: int, q: int| 0 <= p < list@.len() && 0 <= q < list@.len() && p != q implies list@[p]
        != list@[q] by {
        if p < q {
            assert(list@[p] != list@[q]);
        } else {
            assert(list@[q] != list@[p]);
        }
    }
    true
}

} // verus!
