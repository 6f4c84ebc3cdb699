use vstd::prelude::*;

pub mod buffer;
pub mod chunk;
pub mod codec;
pub mod common;
pub mod compress;
pub mod encrypt;
pub mod extract;
pub mod logfile;
pub mod logger;
pub mod parse;
pub mod record;
pub mod runloop;
pub mod text;
pub mod time;

verus! {

/// The current format version of the log structure.
pub const FORMAT_VERSION: u16 = 1;

/// Rounds `value` up to the next multiple of `page_size`.
pub fn round_up_page_size(value: usize, page_size: usize) -> (r: usize)
    requires
        page_size > 0,
        value > 0,
        value + page_size <= usize::MAX,
    ensures
        r >= value,
        r % page_size == 0,
        r < value + page_size,
{
    proof {
        let q = ((value - 1) as int) / (page_size as int);
        vstd::arithmetic::div_mod::lemma_fundamental_div_mod((value - 1) as int, page_size as int);
        assert(q * page_size <= value - 1 && value <= (q + 1) * page_size
            && (q + 1) * page_size <= value - 1 + page_size
            && ((q + 1) * page_size) % (page_size as int) == 0) by (nonlinear_arith)
            requires
                page_size > 0,
                value - 1 == (page_size as int) * q + ((value - 1) as int) % (page_size as int),
                0 <= ((value - 1) as int) % (page_size as int) < page_size,
                q == ((value - 1) as int) / (page_size as int);
    }
    let r = ((value - 1) / page_size + 1) * page_size;
    r
}


/// The extension of the buffer file.
pub const MMAP_BUFFER_EXTENSION: &'static str = "pinebuf";

/// The extension of a binary log file.
pub const FILE_EXTENSION: &'static str = "pine";

/// The extension of a parsed plain-text log file.
pub const PLAIN_FILE_EXTENSION: &'static str = "log";

/// The default buffer length (320 KiB).
pub const BUFFER_LEN: usize = 320 * 1024;

/// Represents the domain to which a logger belongs: the identifier its files
/// carry and the directory they live in.
#[derive(Clone, Debug)]
pub struct Domain {
    /// Used to identify a specific domain for the logger.
    pub identifier: String,
    /// The directory where the domain's files are stored.
    pub directory: String,
}

impl Domain {
    /// Constructs a new `Domain`.
    pub fn new(identifier: String, directory: String) -> (r: Domain)
        ensures
            r.identifier@ == identifier@,
            r.directory@ == directory@,
    {
        Domain { identifier, directory }
    }
}

/// What the outside base64 decoder yields for a string under the standard
/// alphabet: the decoded bytes, or nothing for an invalid encoding; a
/// function of the string alone.
pub uninterp spec fn base64_decoding(s: Seq<char>) -> Option<Seq<u8>>;

/// Relies on `base64::Engine::decode` with `BASE64_STANDARD`: decodes a
/// base64 string, failing exactly on invalid encodings.
#[verifier::external_body]
fn base64_decode(s: &str) -> (r: Option<Vec<u8>>)
    ensures
        r matches Some(v) ==> base64_decoding(s@) == Some(v@),
        r is None ==> base64_decoding(s@) is None,
{
    base64::Engine::decode(&base64::prelude::BASE64_STANDARD, s.as_bytes()).ok()
}

/// Configuration of a logger instance.
#[derive(Clone, Debug)]
pub struct Config {
    /// Whether to use a memory-mapped file as the buffer's backing.
    pub use_mmap: bool,
    /// The whole buffer length; each side gets just under half.
    pub buffer_len: usize,
    /// The chunk rotation dimension.
    pub rotation: time::TimeDimension,
    /// The encryption public key; none means no encryption.
    pub key: Option<Vec<u8>>,
    /// The compression level.
    pub compression_level: i32,
}

impl Config {
    /// Constructs a new `Config` with the defaults: a memory-mapped buffer
    /// of 320 KiB, minute rotation, no encryption, and the default
    /// compression level.
    pub fn new() -> (r: Config)
        ensures
            r.use_mmap == true,
            r.buffer_len == BUFFER_LEN,
            r.rotation == time::TimeDimension::Minute,
            r.key is None,
            r.compression_level == compress::DEFAULT_LEVEL,
    {
        Config {
            use_mmap: true,
            buffer_len: BUFFER_LEN,
            rotation: time::TimeDimension::Minute,
            key: None,
            compression_level: compress::DEFAULT_LEVEL,
        }
    }

    /// Whether or not to use a memory-mapped file as the underlying storage
    /// for the buffer, so that the OS persists buffered records across a
    /// crash.
    pub fn use_mmap(self, flag: bool) -> (r: Config)
        ensures
            r == (Config { use_mmap: flag, ..self }),
    {
        Config { use_mmap: flag, ..self }
    }

    /// The buffer length. When a memory map backs it, it is rounded up to a
    /// multiple of the page size.
    pub fn buffer_len(self, len: usize) -> (r: Config)
        ensures
            r == (Config { buffer_len: len, ..self }),
    {
        Config { buffer_len: len, ..self }
    }

    /// Time granularity of chunk rotation.
    pub fn rotation(self, rotation: time::TimeDimension) -> (r: Config)
        ensures
            r == (Config { rotation: rotation, ..self }),
    {
        Config { rotation, ..self }
    }

    /// The encryption key: the public key of the ECDH pair. None means no
    /// encryption.
    pub fn key(self, key: Option<Vec<u8>>) -> (r: Config)
        ensures
            r == (Config { key: key, ..self }),
    {
        Config { key, ..self }
    }

    /// The encryption key, given in base64. An absent or invalid key — one
    /// that does not decode to a public key's 33 bytes — means no
    /// encryption.
    pub fn key_str(self, key: Option<&str>) -> (r: Config)
        ensures
            r.use_mmap == self.use_mmap,
            r.buffer_len == self.buffer_len,
            r.rotation == self.rotation,
            r.compression_level == self.compression_level,
            match key {
                None => r.key is None,
                Some(s) => match base64_decoding(s@) {
                    Some(v) => if v.len() == chunk::PUBLIC_KEY_LEN {
                        (r.key matches Some(k) && k@ == v)
                    } else {
                        r.key is None
                    },
                    None => r.key is None,
                },
            },
    {
        let decoded: Option<Vec<u8>> = match key {
            None => None,
            Some(s) => {
                match base64_decode(s) {
                    Some(v) => {
                        if v.len() == chunk::PUBLIC_KEY_LEN {
                            Some(v)
                        } else {
                            None
                        }
                    },
                    None => None,
                }
            },
        };
        self.key(decoded)
    }

    /// The compression level. Levels outside the range the compression
    /// library supports are clamped when the compressor is built.
    pub fn compression_level(self, level: i32) -> (r: Config)
        ensures
            r == (Config { compression_level: level, ..self }),
    {
        Config { compression_level: level, ..self }
    }
}

impl Default for Config {
    /// The default configuration.
    fn default() -> (r: Config)
        ensures
            r.use_mmap == true,
            r.buffer_len == BUFFER_LEN,
            r.rotation == time::TimeDimension::Minute,
            r.key is None,
            r.compression_level == compress::DEFAULT_LEVEL,
    {
        Config::new()
    }
}

} // verus!
