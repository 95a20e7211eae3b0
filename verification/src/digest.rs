use vstd::prelude::*;

use crate::text::string_from_chars;

verus! {

#[verifier::external_type_specification]
#[verifier::external_body]
pub struct ExMd5Context(md5::Context);

/// The bytes that an `md5::Context` has consumed since `md5::Context::new`,
/// in the order they were consumed.
pub uninterp spec fn md5_consumed(ctx: md5::Context) -> Seq<u8>;

/// The MD5 digest (RFC 1321) of a byte string.
pub uninterp spec fn md5_digest(data: Seq<u8>) -> Seq<u8>;

/// `md5::Context::new`: a context that has consumed nothing yet.
#[verifier::external_body]
fn md5_context_new() -> (ctx: md5::Context)
    ensures
        md5_consumed(ctx) == Seq::<u8>::empty(),
{
    md5::Context::new()
}

/// `md5::Context::consume`: the context has consumed `data` after what it
/// had consumed before.
#[verifier::external_body]
fn md5_consume(ctx: &mut md5::Context, data: &[u8])
    ensures
        md5_consumed(*final(ctx)) == md5_consumed(*old(ctx)) + data@,
{
    ctx.consume(data)
}

/// `md5::Context::compute`: the 16 bytes of the MD5 digest of everything the
/// context consumed.
#[verifier::external_body]
fn md5_compute(ctx: md5::Context) -> (digest: [u8; 16])
    ensures
        digest@ == md5_digest(md5_consumed(ctx)),
{
    ctx.compute().0
}

/// The lowercase hexadecimal digit of `n` (`n < 16`).
pub open spec fn hex_digit(n: nat) -> char {
    if n < 10 {
        ((n + 48) as u32) as char
    } else {
        ((n + 87) as u32) as char
    }
}

/// Two lowercase hexadecimal digits per byte, high nibble first.
pub open spec fn hex_lower(bytes: Seq<u8>) -> Seq<char>
    decreases bytes.len(),
{
    if bytes.len() == 0 {
        Seq::empty()
    } else {
        hex_lower(bytes.drop_last()) + seq![
            hex_digit((bytes.last() / 16) as nat),
            hex_digit((bytes.last() % 16) as nat),
        ]
    }
}

/// The hexadecimal text has two digits per byte.
pub proof fn lemma_hex_lower_len(bytes: Seq<u8>)
    ensures
        hex_lower(bytes).len() == 2 * bytes.len(),
    decreases bytes.len(),
{
    if bytes.len() > 0 {
        lemma_hex_lower_len(bytes.drop_last());
    }
}

/// The value of a hexadecimal digit character.
pub open spec fn hex_value(c: char) -> int {
    if '0' <= c && c <= '9' {
        c as int - '0' as int
    } else {
        c as int - 'a' as int + 10
    }
}

/// The hexadecimal text of bytes is made of `0`-`9` and `a`-`f` only, two
/// per byte, and each pair read as a number, high digit first, is its byte.
pub proof fn lemma_hex_lower_decodes(bytes: Seq<u8>)
    ensures
        hex_lower(bytes).len() == 2 * bytes.len(),
        forall|i: int|
            0 <= i < hex_lower(bytes).len() ==> ('0' <= #[trigger] hex_lower(bytes)[i] <= '9') || (
            'a' <= hex_lower(bytes)[i] <= 'f'),
        forall|k: int|
            0 <= k < bytes.len() ==> hex_value(hex_lower(bytes)[2 * k]) * 16 + hex_value(
                hex_lower(bytes)[2 * k + 1],
            ) == #[trigger] bytes[k],
    decreases bytes.len(),
{
    lemma_hex_lower_len(bytes);
    if bytes.len() > 0 {
        let b0 = bytes.drop_last();
        lemma_hex_lower_decodes(b0);
        let h = hex_lower(bytes);
        let h0 = hex_lower(b0);
        let b = bytes.last();
        let hi = (b / 16) as nat;
        let lo = (b % 16) as nat;
        assert(h == h0 + seq![hex_digit(hi), hex_digit(lo)]);
        assert(hi < 16 && lo < 16);
        assert(hi * 16 + lo == b);
        assert(hex_value(hex_digit(hi)) == hi);
        assert(hex_value(hex_digit(lo)) == lo);
        assert forall|i: int| 0 <= i < h.len() implies ('0' <= #[trigger] h[i] <= '9') || ('a' <= h[i] <= 'f') by {
            if i < h0.len() {
                assert(h[i] == h0[i]);
            }
        }
        assert forall|k: int| 0 <= k < bytes.len() implies hex_value(h[2 * k]) * 16 + hex_value(h[2 * k + 1])
            == #[trigger] bytes[k] by {
            if k < b0.len() {
                assert(h[2 * k] == h0[2 * k]);
                assert(h[2 * k + 1] == h0[2 * k + 1]);
                assert(b0[k] == bytes[k]);
            } else {
                assert(h[2 * k] == hex_digit(hi));
                assert(h[2 * k + 1] == hex_digit(lo));
            }
        }
    }
}

/// The lowercase hexadecimal MD5 digest of a whole content.
pub open spec fn hash_text(content: Seq<u8>) -> Seq<char> {
    hex_lower(md5_digest(content))
}

/// The lowercase hexadecimal MD5 digest of the first `PARTIAL_HASH_BYTES`
/// bytes of a content (of all of it, where it is shorter).
pub open spec fn partial_hash_text(content: Seq<u8>) -> Seq<char> {
    if content.len() <= PARTIAL_HASH_BYTES {
        hash_text(content)
    } else {
        hash_text(content.take(PARTIAL_HASH_BYTES as int))
    }
}

fn hex_char(n: u8) -> (c: char)
    requires
        n < 16,
    ensures
        c == hex_digit(n as nat),
{
    if n < 10 {
        (n + 48u8) as char
    } else {
        (n + 87u8) as char
    }
}

/// Formats bytes as lowercase hexadecimal.
pub fn to_hex_lower(bytes: &[u8]) -> (r: String)
    ensures
        r@ == hex_lower(bytes@),
{
    let mut out: Vec<char> = Vec::new();
    let mut i: usize = 0;
    while i < bytes.len()
        invariant
            i <= bytes@.len(),
            out@ == hex_lower(bytes@.take(i as int)),
        decreases bytes@.len() - i,
    {
        let b = bytes[i];
        out.push(hex_char(b / 16));
        out.push(hex_char(b % 16));
        assert(bytes@.take(i + 1).drop_last() =~= bytes@.take(i as int));
        i = i + 1;
    }
    assert(bytes@.take(bytes@.len() as int) =~= bytes@);
    string_from_chars(&out)
}

/// How many leading bytes of a file the partial hash covers.
pub const PARTIAL_HASH_BYTES: usize = 65536;

/// How many bytes a whole-content hash asks for at a time.
pub const FULL_HASH_CHUNK: usize = 131072;

/// MD5 over a file's content, fed in chunks as they are read: either over
/// the first `PARTIAL_HASH_BYTES` bytes only, or over everything.
pub struct ContentHasher {
    ctx: md5::Context,
    left: Option<usize>,
}

impl ContentHasher {
    /// The bytes fed so far.
    pub closed spec fn consumed(&self) -> Seq<u8> {
        md5_consumed(self.ctx)
    }

    /// Whether only a prefix of the content is hashed.
    pub closed spec fn prefix_only(&self) -> bool {
        self.left is Some
    }

    /// How many more bytes the next chunk may hold.
    pub open spec fn wanted_spec(&self) -> nat {
        if self.prefix_only() {
            (PARTIAL_HASH_BYTES - self.consumed().len()) as nat
        } else {
            FULL_HASH_CHUNK as nat
        }
    }

    pub closed spec fn wf(&self) -> bool {
        match self.left {
            Some(r) => self.consumed().len() + r == PARTIAL_HASH_BYTES,
            None => true,
        }
    }

    /// A hasher over the first `PARTIAL_HASH_BYTES` bytes of a content.
    pub fn partial() -> (h: Self)
        ensures
            h.wf(),
            h.prefix_only(),
            h.consumed() == Seq::<u8>::empty(),
    {
        ContentHasher { ctx: md5_context_new(), left: Some(PARTIAL_HASH_BYTES) }
    }

    /// A hasher over a whole content.
    pub fn full() -> (h: Self)
        ensures
            h.wf(),
            !h.prefix_only(),
            h.consumed() == Seq::<u8>::empty(),
    {
        ContentHasher { ctx: md5_context_new(), left: None }
    }

    /// The most bytes the next chunk may hold; 0 once a prefix hash has all
    /// the bytes it covers.
    pub fn wanted(&self) -> (n: usize)
        requires
            self.wf(),
        ensures
            n == self.wanted_spec(),
            self.prefix_only() ==> self.consumed().len() <= PARTIAL_HASH_BYTES,
    {
        match self.left {
            Some(r) => r,
            None => FULL_HASH_CHUNK,
        }
    }

    /// Feeds the next chunk of the content.
    pub fn feed(&mut self, chunk: &[u8])
        requires
            old(self).wf(),
            chunk@.len() <= old(self).wanted_spec(),
        ensures
            final(self).wf(),
            final(self).prefix_only() == old(self).prefix_only(),
            final(self).consumed() == old(self).consumed() + chunk@,
    {
        md5_consume(&mut self.ctx, chunk);
        match self.left {
            Some(r) => {
                self.left = Some(r - chunk.len());
            },
            None => {},
        }
    }

    /// Whether the chunks fed so far are `content` read from its start up to
    /// where reading stops: the end of the content, or, for a prefix hash,
    /// the end of the prefix.
    pub open spec fn has_read(&self, content: Seq<u8>) -> bool {
        &&& self.consumed().len() <= content.len()
        &&& self.consumed() == content.take(self.consumed().len() as int)
        &&& (self.consumed().len() == content.len() || self.wanted_spec() == 0)
    }

    /// The lowercase hexadecimal MD5 digest of the bytes fed: 32 digits.
    pub fn finish(self) -> (hex: String)
        ensures
            hex@ == hash_text(self.consumed()),
            hex@.len() == 32,
    {
        let digest = md5_compute(self.ctx);
        proof {
            lemma_hex_lower_len(digest@);
        }
        to_hex_lower(&digest)
    }
}

/// A hasher that has read a content has fed all of it, or, for a prefix
/// hash, its first `PARTIAL_HASH_BYTES` bytes: what it finishes with is the
/// content's hash text or partial hash text.
pub proof fn lemma_read_hasher_text(h: ContentHasher, content: Seq<u8>)
    requires
        h.wf(),
        h.has_read(content),
    ensures
        h.prefix_only() ==> hash_text(h.consumed()) == partial_hash_text(content),
        !h.prefix_only() ==> h.consumed() == content,
{
    let n = h.consumed().len();
    if h.prefix_only() {
        if n == content.len() {
            assert(content.take(n as int) =~= content);
        }
    } else {
        assert(content.take(n as int) =~= content);
    }
}

/// On a content of at most `PARTIAL_HASH_BYTES` bytes, a prefix hasher and a
/// whole-content hasher that have both read it have fed the same bytes, so
/// they finish with the same text.
pub proof fn lemma_short_content_hashes_agree(
    partial: ContentHasher,
    full: ContentHasher,
    content: Seq<u8>,
)
    requires
        partial.wf(),
        full.wf(),
        partial.prefix_only(),
        !full.prefix_only(),
        partial.has_read(content),
        full.has_read(content),
        content.len() <= PARTIAL_HASH_BYTES,
    ensures
        partial.consumed() == full.consumed(),
        hash_text(partial.consumed()) == hash_text(full.consumed()),
        partial_hash_text(content) == hash_text(content),
{
    lemma_read_hasher_text(partial, content);
    lemma_read_hasher_text(full, content);
    assert(content.take(content.len() as int) =~= content);
}

} // verus!
