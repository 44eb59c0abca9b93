//! The runtime's strings: byte buffers that hold UTF-8 text.
use vstd::prelude::*;
use vstd::string::StringSliceAdditionalSpecFns;
use vstd::utf8::{decode_utf8, encode_utf8_decode_utf8, encode_utf8_valid_utf8, valid_utf8};

use crate::runtime::Runtime;
use crate::swift::SwiftObject;
use crate::swift_ret::SwiftRet;
use crate::types::array::SRArray;
use crate::types::data::SRData;
use crate::types::object::SRObject;

verus! {

/// Relies on std::str::from_utf8: it accepts exactly the well-formed UTF-8
/// byte sequences, and the text it gives has those bytes.
#[verifier::external_body]
fn utf8_text(bytes: &[u8]) -> (r: Option<&str>)
    ensures
        r.is_some() <==> valid_utf8(bytes@),
        r matches Some(t) ==> t.spec_bytes() == bytes@,
{
    std::str::from_utf8(bytes).ok()
}

/// A string of the runtime: a byte buffer whose bytes are UTF-8.
pub struct SRString(SRData);

impl View for SRString {
    type V = Seq<char>;

    open spec fn view(&self) -> Seq<char> {
        decode_utf8(self.bytes())
    }
}

impl SRString {
    /// The buffer holding the text.
    pub closed spec fn data(&self) -> SRData {
        self.0
    }

    /// The UTF-8 bytes of the text.
    pub open spec fn bytes(&self) -> Seq<u8> {
        self.data()@
    }

    #[verifier::type_invariant]
    spec fn inv(&self) -> bool {
        valid_utf8(self.0@)
    }

    /// Copies `s` into a new string of the runtime, allocated as a byte
    /// buffer is (see [`SRData::from_slice`]).
    pub fn from_str(rt: &mut Runtime, s: &str) -> (r: SRString)
        requires
            old(rt).wf(),
            old(rt).counts().len() + 2 <= usize::MAX,
        ensures
            final(rt).wf(),
            r@ == s@,
            r.bytes() == s.spec_bytes(),
            r.objects() == seq![old(rt).counts().len() as usize, (old(rt).counts().len() + 1) as usize],
            final(rt).counts() == old(rt).counts().push(1).push(1),
            final(rt).pools() == old(rt).pools(),
            final(rt).calls() == old(rt).calls(),
            final(rt).owned(old(rt).counts().len() as usize) == 1,
            final(rt).owned((old(rt).counts().len() + 1) as usize) == 1,
    {
        let data = SRData::from_slice(rt, s.as_bytes());
        proof {
            encode_utf8_valid_utf8(s@);
            encode_utf8_decode_utf8(s@);
        }
        SRString(data)
    }

    /// Reads a buffer as a string: `Ok` when its bytes are UTF-8, else the
    /// buffer back.
    pub fn from_data(data: SRData) -> (r: Result<SRString, SRData>)
        ensures
            r is Ok <==> valid_utf8(data@),
            r matches Ok(t) ==> t.data() == data,
            r matches Err(d) ==> d == data,
    {
        if utf8_text(data.as_slice()).is_some() {
            Ok(SRString(data))
        } else {
            Err(data)
        }
    }

    /// The text.
    pub fn as_str(&self) -> (r: &str)
        ensures
            r@ == self@,
            r.spec_bytes() == self.bytes(),
    {
        proof {
            use_type_invariant(self);
        }
        match utf8_text(self.0.as_slice()) {
            Some(t) => {
                proof {
                    encode_utf8_decode_utf8(t@);
                }
                t
            },
            None => {
                proof {
                    assert(false);
                }
                ""
            },
        }
    }

    /// A native copy of the text.
    pub fn to_string(&self) -> (r: String)
        ensures
            r@ == self@,
    {
        self.as_str().to_owned()
    }

    /// The buffer holding the text.
    pub fn as_data(&self) -> (r: &SRData)
        ensures
            *r == self.data(),
    {
        &self.0
    }
}

impl SwiftObject for SRString {
    type Shape = SRArray<u8>;

    open spec fn root(&self) -> SRObject<SRArray<u8>> {
        self.data().root()
    }

    fn get_object(&self) -> (r: &SRObject<SRArray<u8>>) {
        self.0.get_object()
    }
}

impl SwiftRet for SRString {
    open spec fn objects(&self) -> Seq<usize> {
        self.data().objects()
    }

    fn retain(&self, rt: &mut Runtime) {
        self.0.retain(rt)
    }

    fn release(self, rt: &mut Runtime) {
        self.0.release(rt)
    }
}

/// Text copied into a runtime string reads back as the same text with the
/// same bytes: [`SRString::from_str`] gives a string whose bytes are those of
/// the text, and [`SRString::as_str`] reads back the string's own text and
/// bytes. This holds of every text, the empty one, NUL characters and
/// multi-byte characters included.
pub proof fn lemma_string_round_trip(s: &str, t: SRString)
    requires
        t.bytes() == s.spec_bytes(),
    ensures
        t@ == s@,
        t.bytes() == s.spec_bytes(),
{
    encode_utf8_decode_utf8(s@);
}

} // verus!
