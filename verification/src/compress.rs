//! Compression and decompression: streaming block compression through the
//! outside Zstandard library.
//!
//! The library's output is deterministic: for a fixed compression level, the
//! bytes a stream emits are a function of the operations fed to it so far,
//! and nothing else. Each stream therefore carries its operation history as
//! ghost state, and what the outside calls return is pinned to named results
//! over that history — `Input` feeds bytes, `Flush` emits all buffered
//! output while keeping the frame open, and `End` closes the frame.

use vstd::prelude::*;
use zstd_safe::zstd_sys::ZSTD_EndDirective;

verus! {

/// Errors that can be occurred during compression or decompression.
#[derive(Clone, PartialEq, Eq, Debug)]
pub struct Error {
    /// An error code from the underlying compression library.
    pub code: usize,
    /// An error descriptive message.
    pub message: String,
}

/// Errors that can be occurred during compression.
pub type CompressionError = Error;

/// Errors that can be occurred during decompression.
pub type DecompressionError = Error;

/// Operation of compression. Different values are used according to
/// different flush dimensions.
#[derive(Clone, Copy, PartialEq, Eq, Structural, Debug)]
pub enum CompressOp {
    /// Feed more input into the open frame.
    Input,
    /// Emit all buffered compressed bytes, keeping the frame open.
    Flush,
    /// Close the frame.
    End,
}

#[verifier::external_type_specification]
#[verifier::external_body]
pub struct ExCCtx<'a>(zstd_safe::CCtx<'a>);

#[verifier::external_type_specification]
#[verifier::external_body]
pub struct ExDCtx<'a>(zstd_safe::DCtx<'a>);

/// The default compression level.
pub const DEFAULT_LEVEL: i32 = 10;

/// Everything a compression stream at level `level` has emitted after the
/// given operations, each an operation with the bytes fed by it: a function
/// of the level and the history alone.
pub uninterp spec fn zstd_emitted(level: int, history: Seq<(CompressOp, Seq<u8>)>) -> Seq<u8>;

/// Whether a compression stream at level `level` accepts the given history's
/// last operation after the ones before it: a function of the level and the
/// history alone.
pub uninterp spec fn zstd_accepts(level: int, history: Seq<(CompressOp, Seq<u8>)>) -> bool;

/// Everything a decompression stream has emitted after being fed the given
/// inputs: a function of the inputs alone.
pub uninterp spec fn zstd_decompressed(history: Seq<Seq<u8>>) -> Seq<u8>;

/// Whether a decompression stream accepts the given history's last input
/// after the ones before it: a function of the inputs alone.
pub uninterp spec fn zstd_dec_accepts(history: Seq<Seq<u8>>) -> bool;

/// Relies on `zstd_safe::min_c_level`: the lowest compression level the
/// library accepts.
#[verifier::external_body]
fn zstd_min_level() -> i32 {
    zstd_safe::min_c_level()
}

/// Relies on `zstd_safe::max_c_level`: the highest compression level the
/// library accepts.
#[verifier::external_body]
fn zstd_max_level() -> i32 {
    zstd_safe::max_c_level()
}

/// The Zstandard streaming compressor.
pub struct ZstdCompressor {
    ctx: zstd_safe::CCtx<'static>,
    out_buf: Vec<u8>,
    level: Ghost<int>,
    history: Ghost<Seq<(CompressOp, Seq<u8>)>>,
}

impl ZstdCompressor {
    /// The stream's compression level.
    pub closed spec fn spec_level(&self) -> int {
        self.level@
    }

    /// The operations fed to the stream so far.
    pub closed spec fn spec_history(&self) -> Seq<(CompressOp, Seq<u8>)> {
        self.history@
    }

    /// Constructs a new compressor, clamping the level into the range that
    /// the library supports.
    pub fn new(level: i32) -> (r: Result<ZstdCompressor, Error>)
        ensures
            r matches Ok(c) ==> c.spec_history() == Seq::<(CompressOp, Seq<u8>)>::empty(),
    {
        let lo = zstd_min_level();
        let hi = zstd_max_level();
        let level = if level > hi {
            hi
        } else if level < lo {
            lo
        } else {
            level
        };
        match cctx_with_level(level) {
            Ok(ctx) => Ok(
                ZstdCompressor {
                    ctx,
                    out_buf: vec![0u8; 256],
                    level: Ghost(level as int),
                    history: Ghost(Seq::empty()),
                },
            ),
            Err(e) => Err(e),
        }
    }

    /// Relies on `zstd_safe::CCtx::compress_stream2`: drives one operation to
    /// completion — for `Input` until the library has consumed all the input,
    /// for `Flush` and `End` until the library reports nothing remaining.
    /// The call's acceptance and its output bytes are functions of the level
    /// and the history alone: on success the named emitted stream grows by
    /// exactly the returned bytes.
    #[verifier::external_body]
    pub fn compress(&mut self, op: CompressOp, bytes: &[u8]) -> (r: Result<Vec<u8>, Error>)
        ensures
            final(self).spec_level() == old(self).spec_level(),
            final(self).spec_history() == old(self).spec_history().push((op, bytes@)),
            r matches Ok(v) ==> zstd_accepts(old(self).spec_level(), final(self).spec_history())
                && zstd_emitted(old(self).spec_level(), final(self).spec_history()) == zstd_emitted(
                old(self).spec_level(),
                old(self).spec_history(),
            ) + v@,
            r is Err ==> !zstd_accepts(old(self).spec_level(), final(self).spec_history()),
    {
        let (data, directive, is_input): (&[u8], _, bool) = match op {
            CompressOp::Input => (bytes, ZSTD_EndDirective::ZSTD_e_continue, true),
            CompressOp::Flush => (&[], ZSTD_EndDirective::ZSTD_e_flush, false),
            CompressOp::End => (&[], ZSTD_EndDirective::ZSTD_e_end, false),
        };
        let (mut input, mut out) = (zstd_safe::InBuffer::around(data), Vec::new());
        loop {
            let mut output = zstd_safe::OutBuffer::around(self.out_buf.as_mut_slice());
            let remaining = self.ctx.compress_stream2(&mut output, &mut input, directive)
                .map_err(zstd_error)?;
            out.extend_from_slice(output.as_slice());
            if (is_input && input.pos == input.src.len()) || (!is_input && remaining == 0) {
                return Ok(out);
            }
        }
    }
}

/// The Zstandard streaming decompressor.
pub struct ZstdDecompressor {
    ctx: zstd_safe::DCtx<'static>,
    out_buf: Vec<u8>,
    history: Ghost<Seq<Seq<u8>>>,
}

impl ZstdDecompressor {
    /// The inputs fed to the stream so far.
    pub closed spec fn spec_history(&self) -> Seq<Seq<u8>> {
        self.history@
    }

    /// Constructs a fresh decompression stream with an empty history.
    pub fn new() -> (r: ZstdDecompressor)
        ensures
            r.spec_history() == Seq::<Seq<u8>>::empty(),
    {
        ZstdDecompressor { ctx: dctx_create(), out_buf: vec![0u8; 1024], history: Ghost(Seq::empty()) }
    }

    /// Relies on `zstd_safe::DCtx::decompress_stream`: feeds the input to the
    /// open stream until all of it is consumed. The call's acceptance and its
    /// output bytes are functions of the inputs fed so far alone: on success
    /// the named decompressed stream grows by exactly the returned bytes.
    #[verifier::external_body]
    pub fn decompress(&mut self, input: &[u8]) -> (r: Result<Vec<u8>, Error>)
        ensures
            final(self).spec_history() == old(self).spec_history().push(input@),
            r matches Ok(v) ==> zstd_dec_accepts(final(self).spec_history())
                && zstd_decompressed(final(self).spec_history()) == zstd_decompressed(
                old(self).spec_history(),
            ) + v@,
            r is Err ==> !zstd_dec_accepts(final(self).spec_history()),
    {
        let (mut input, mut out) = (zstd_safe::InBuffer::around(input), Vec::new());
        while input.pos < input.src.len() {
            let mut output = zstd_safe::OutBuffer::around(self.out_buf.as_mut_slice());
            self.ctx.decompress_stream(&mut output, &mut input).map_err(zstd_error)?;
            out.extend_from_slice(output.as_slice());
        }
        Ok(out)
    }
}

/// Relies on `zstd_safe::CCtx::create` and `zstd_safe::CCtx::set_parameter`:
/// a fresh compression context set to the given level.
#[verifier::external_body]
fn cctx_with_level(level: i32) -> (r: Result<zstd_safe::CCtx<'static>, Error>)
{
    let mut ctx = zstd_safe::CCtx::create();
    match ctx.set_parameter(zstd_safe::CParameter::CompressionLevel(level)) {
        Ok(_) => Ok(ctx),
        Err(code) => Err(zstd_error(code)),
    }
}

/// Relies on `zstd_safe::DCtx::create`: a fresh decompression context.
#[verifier::external_body]
fn dctx_create() -> (r: zstd_safe::DCtx<'static>)
{
    zstd_safe::DCtx::create()
}

/// Relies on `zstd_safe::get_error_name`: wraps a library error code with its
/// descriptive message.
#[verifier::external_body]
fn zstd_error(code: usize) -> (r: Error)
{
    Error { code, message: zstd_safe::get_error_name(code).to_string() }
}

} // verus!
