//! The computation cache decisions.
//!
//! Next to each intermediate product sits a small text file holding a
//! tag: the hex encoding of a hash over the tool version, the
//! dependency fingerprint, the input path, the input's modification
//! time and the hash of the input's whole content. A computation is
//! skipped exactly when the cache is enabled and the stored tag equals
//! the expected one. This module computes tags and takes the decision;
//! reading the input's metadata and the tag file is the caller's part.

use vstd::prelude::*;

use crate::bytes::u64_le_bytes;
use crate::geometry::spec_program_version;

verus! {

/// The hash the cache tags are built from.
pub uninterp spec fn fx_hash_of(data: Seq<u8>) -> u64;

/// Relies on rustc_hash::FxHasher seeded with its default seed 0: the
/// hash is a pure polynomial function of the bytes written (for the
/// target's pointer width), with no per-process state.
#[verifier::external_body]
fn fx_hash(data: &Vec<u8>) -> (r: u64)
    ensures
        r == fx_hash_of(data@),
{
    let mut hasher = rustc_hash::FxHasher::default();
    std::hash::Hasher::write(&mut hasher, data.as_slice());
    std::hash::Hasher::finish(&hasher)
}

/// The nibble of `v` at hex position `i`, highest first.
pub open spec fn hex_nibble(v: u64, i: int) -> u64 {
    (v >> (((15 - i) * 4) as u64)) & 0xF
}

/// The ASCII byte of one hex digit, lower case.
pub open spec fn hex_digit_byte(n: u64) -> u8 {
    if n < 10 {
        (48 + n) as u8
    } else {
        (87 + n) as u8
    }
}

/// The 16 ASCII bytes of a 64-bit value in hex, highest digit first.
pub open spec fn hex_bytes(v: u64) -> Seq<u8> {
    Seq::new(16, |i: int| hex_digit_byte(hex_nibble(v, i)))
}

/// Write a 64-bit value as 16 lower-case hex digits.
pub fn u64_to_hex_bytes(v: u64) -> (r: Vec<u8>)
    ensures
        r@ == hex_bytes(v),
{
    let mut out: Vec<u8> = Vec::new();
    let mut i: usize = 0;
    while i < 16
        invariant
            i <= 16,
            out@ =~= hex_bytes(v).subrange(0, i as int),
        decreases 16 - i,
    {
        let sh: u64 = 60 - 4 * (i as u64);
        let nibble: u64 = (v >> sh) & 0xF;
        proof {
            assert(sh == ((15 - i) * 4) as u64);
            assert((v >> sh) & 0xF <= 0xF) by (bit_vector);
        }
        let digit: u8 = if nibble < 10 {
            (48 + nibble) as u8
        } else {
            (87 + nibble) as u8
        };
        out.push(digit);
        proof {
            assert(out@ =~= hex_bytes(v).subrange(0, i + 1));
        }
        i = i + 1;
    }
    proof {
        assert(hex_bytes(v).subrange(0, 16) =~= hex_bytes(v));
    }
    out
}

/// The bytes the tag hash runs over: version, dependency fingerprint,
/// input path, modification time (two halves) and content hash.
pub open spec fn tag_input_bytes(
    version: Seq<char>,
    dependencies_hash: u64,
    input_path: Seq<char>,
    mtime_hi: u64,
    mtime_lo: u64,
    content_hash: u64,
) -> Seq<u8> {
    vstd::utf8::encode_utf8(version) + u64_le_bytes(dependencies_hash) + vstd::utf8::encode_utf8(
        input_path,
    ) + u64_le_bytes(mtime_hi) + u64_le_bytes(mtime_lo) + u64_le_bytes(content_hash)
}

/// The tag expected for given input observations: the hex encoding of
/// the hash over the tag input bytes.
pub open spec fn expected_tag_spec(
    dependencies_hash: u64,
    input_path: Seq<char>,
    mtime_hi: u64,
    mtime_lo: u64,
    content_hash: u64,
) -> Seq<u8> {
    hex_bytes(
        fx_hash_of(
            tag_input_bytes(
                spec_program_version(),
                dependencies_hash,
                input_path,
                mtime_hi,
                mtime_lo,
                content_hash,
            ),
        ),
    )
}

/// Whether a computation must run again: yes when the cache is
/// bypassed, when no tag is stored, and when the stored tag differs
/// from the expected one.
pub open spec fn needs_recompute_spec(
    no_cache: bool,
    existing_tag: Option<Seq<u8>>,
    expected_tag: Seq<u8>,
) -> bool {
    match existing_tag {
        Some(t) => no_cache || t != expected_tag,
        None => true,
    }
}

/// The cache-safety law at the tag level: bypassing the cache or
/// having no stored tag always recomputes, and with the cache enabled
/// a stored tag skips the computation exactly when it equals the
/// expected tag.
pub proof fn lemma_cache_safety(stored: Seq<u8>, expected: Seq<u8>)
    ensures
        needs_recompute_spec(true, Some(stored), expected),
        needs_recompute_spec(true, None, expected),
        needs_recompute_spec(false, None, expected),
        !needs_recompute_spec(false, Some(expected), expected),
        needs_recompute_spec(false, Some(stored), expected) <==> stored != expected,
{
}

/// A pending cached computation: the input it watches, the tag file it
/// guards, and the fingerprint of its dependencies.
pub struct CachedComputation {
    dependencies_hash: u64,
    input_file: String,
    cache_file: String,
}

impl CachedComputation {
    pub closed spec fn spec_dependencies_hash(self) -> u64 {
        self.dependencies_hash
    }

    pub closed spec fn spec_input_file(self) -> Seq<char> {
        self.input_file@
    }

    pub closed spec fn spec_cache_file(self) -> Seq<char> {
        self.cache_file@
    }

    /// A computation reading `input_file`, guarded by the tag in
    /// `cache_file`, with the given dependency fingerprint.
    pub fn new(input_file: String, cache_file: String, dependencies_hash: u64) -> (r: Self)
        ensures
            r.spec_input_file() == input_file@,
            r.spec_cache_file() == cache_file@,
            r.spec_dependencies_hash() == dependencies_hash,
    {
        CachedComputation { dependencies_hash, input_file, cache_file }
    }

    /// The path of the tag file this computation is guarded by.
    pub fn cache_file(&self) -> (r: &String)
        ensures
            r@ == self.spec_cache_file(),
    {
        &self.cache_file
    }

    /// The path of the input file this computation reads.
    pub fn input_file(&self) -> (r: &String)
        ensures
            r@ == self.spec_input_file(),
    {
        &self.input_file
    }

    /// The tag expected for the observed modification time and content
    /// hash of the input file.
    pub fn expected_tag(&self, mtime_hi: u64, mtime_lo: u64, content_hash: u64) -> (r: Vec<u8>)
        ensures
            r@ == expected_tag_spec(
                self.spec_dependencies_hash(),
                self.spec_input_file(),
                mtime_hi,
                mtime_lo,
                content_hash,
            ),
    {
        let mut data: Vec<u8> = Vec::new();
        append_str_bytes(&mut data, crate::geometry::program_version());
        crate::bytes::push_u64_le(&mut data, self.dependencies_hash);
        append_str_bytes(&mut data, self.input_file.as_str());
        crate::bytes::push_u64_le(&mut data, mtime_hi);
        crate::bytes::push_u64_le(&mut data, mtime_lo);
        crate::bytes::push_u64_le(&mut data, content_hash);
        proof {
            assert(data@ =~= tag_input_bytes(
                spec_program_version(),
                self.spec_dependencies_hash(),
                self.spec_input_file(),
                mtime_hi,
                mtime_lo,
                content_hash,
            ));
        }
        let h = fx_hash(&data);
        u64_to_hex_bytes(h)
    }

    /// Decide whether the computation must run, from the stored tag (if
    /// any), the expected tag, and whether the cache is bypassed. When
    /// it must, the returned guard carries the tag to store afterwards
    /// (no tag when the cache is bypassed, as the observation may be
    /// unreliable then).
    pub fn needs_recompute_decision(
        &self,
        no_cache: bool,
        existing_tag: Option<Vec<u8>>,
        expected_tag: Vec<u8>,
    ) -> (r: Option<ComputationGuard>)
        ensures
            (r is Some) == needs_recompute_spec(
                no_cache,
                match existing_tag {
                    Some(t) => Some(t@),
                    None => None,
                },
                expected_tag@,
            ),
            r matches Some(g) ==> {
                &&& g.spec_cache_file() == self.spec_cache_file()
                &&& g.spec_new_tag() == if no_cache {
                    None::<Seq<u8>>
                } else {
                    Some(expected_tag@)
                }
            },
    {
        if no_cache {
            return Some(
                ComputationGuard { cache_file: self.cache_file.clone(), new_cache_tag: None },
            );
        }
        let differs = match &existing_tag {
            Some(t) => !bytes_equal(t, &expected_tag),
            None => true,
        };
        if differs {
            Some(
                ComputationGuard {
                    cache_file: self.cache_file.clone(),
                    new_cache_tag: Some(expected_tag),
                },
            )
        } else {
            None
        }
    }
}

/// Proof that a computation ran: carries the tag file path and the tag
/// to store there, if any.
pub struct ComputationGuard {
    cache_file: String,
    new_cache_tag: Option<Vec<u8>>,
}

impl ComputationGuard {
    pub closed spec fn spec_cache_file(self) -> Seq<char> {
        self.cache_file@
    }

    pub closed spec fn spec_new_tag(self) -> Option<Seq<u8>> {
        match self.new_cache_tag {
            Some(t) => Some(t@),
            None => None,
        }
    }

    /// The tag file path and the tag to store there; storing them is
    /// the caller's part.
    pub fn into_parts(self) -> (r: (String, Option<Vec<u8>>))
        ensures
            r.0@ == self.spec_cache_file(),
            self.spec_new_tag() == match r.1 {
                Some(t) => Some(t@),
                None => None::<Seq<u8>>,
            },
    {
        let ComputationGuard { cache_file, new_cache_tag } = self;
        (cache_file, new_cache_tag)
    }
}

/// Whether two byte vectors hold the same bytes.
pub fn bytes_equal(a: &Vec<u8>, b: &Vec<u8>) -> (r: bool)
    ensures
        r == (a@ == b@),
{
    if a.len() != b.len() {
        return false;
    }
    let n = a.len();
    let mut i: usize = 0;
    while i < n
        invariant
            i <= n,
            n == a@.len(),
            n == b@.len(),
            forall|j: int| 0 <= j < i ==> a@[j] == b@[j],
        decreases n - i,
    {
        if a[i] != b[i] {
            return false;
        }
        i = i + 1;
    }
    proof {
        assert(a@ =~= b@);
    }
    true
}

/// Append the bytes of a string.
fn append_str_bytes(out: &mut Vec<u8>, s: &str)
    ensures
        final(out)@ == old(out)@ + vstd::utf8::encode_utf8(s@),
{
    let b = s.as_bytes();
    let n = b.len();
    let mut i: usize = 0;
    while i < n
        invariant
            n == b@.len(),
            i <= n,
            b@ == vstd::utf8::encode_utf8(s@),
            out@ == old(out)@ + b@.subrange(0, i as int),
        decreases n - i,
    {
        out.push(b[i]);
        proof {
            assert(old(out)@ + b@.subrange(0, i as int) + seq![b@[i as int]] =~= old(out)@
                + b@.subrange(0, i + 1));
        }
        i = i + 1;
    }
    proof {
        assert(b@.subrange(0, n as int) =~= b@);
    }
}

} // verus!
