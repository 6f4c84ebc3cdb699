use vstd::prelude::*;

use crate::time::DateTime;

verus! {

/// Represents logging levels of a log record.
///
/// The default value in [`Meta`] is [`Level::Info`].
#[derive(Clone, Copy, PartialEq, Eq, Structural, Debug, Hash)]
pub enum Level {
    /// The `error` log level.
    Error,
    /// The `warning` log level.
    Warn,
    /// The `informational` log level.
    Info,
    /// The `debug` log level.
    Debug,
    /// The `verbose` log level.
    Verbose,
}

/// The single-byte wire representation of a level.
pub open spec fn spec_level_primitive(level: Level) -> u8 {
    match level {
        Level::Error => 1,
        Level::Warn => 2,
        Level::Info => 3,
        Level::Debug => 4,
        Level::Verbose => 5,
    }
}

/// The level a byte stands for, if any.
pub open spec fn spec_level_from_primitive(value: u8) -> Option<Level> {
    if value == 1 {
        Some(Level::Error)
    } else if value == 2 {
        Some(Level::Warn)
    } else if value == 3 {
        Some(Level::Info)
    } else if value == 4 {
        Some(Level::Debug)
    } else if value == 5 {
        Some(Level::Verbose)
    } else {
        None
    }
}

impl Level {
    /// Returns the underlying primitive representation.
    pub fn primitive(&self) -> (r: u8)
        ensures
            r == spec_level_primitive(*self),
    {
        match self {
            Level::Error => 1,
            Level::Warn => 2,
            Level::Info => 3,
            Level::Debug => 4,
            Level::Verbose => 5,
        }
    }

    /// Constructs from the underlying primitive representation.
    pub fn from_primitive(value: u8) -> (r: Option<Level>)
        ensures
            r == spec_level_from_primitive(value),
    {
        match value {
            1 => Some(Level::Error),
            2 => Some(Level::Warn),
            3 => Some(Level::Info),
            4 => Some(Level::Debug),
            5 => Some(Level::Verbose),
            _ => None,
        }
    }
}

/// The byte a level stands for always stands for that level.
pub proof fn lemma_level_primitive_roundtrip(level: Level)
    ensures
        spec_level_from_primitive(spec_level_primitive(level)) == Some(level),
{
}

/// The mathematical value of a [`Location`]: the same three optional fields,
/// with strings as character sequences.
pub ghost struct SpecLocation {
    pub file: Option<Seq<char>>,
    pub func: Option<Seq<char>>,
    pub line: Option<u32>,
}

/// Represents a location in the code where a log record was generated.
#[derive(Clone, Debug, Default)]
pub struct Location {
    pub file: Option<String>,
    pub func: Option<String>,
    pub line: Option<u32>,
}

pub open spec fn view_opt_string(s: Option<String>) -> Option<Seq<char>> {
    match s {
        Some(s) => Some(s@),
        None => None,
    }
}

impl View for Location {
    type V = SpecLocation;

    open spec fn view(&self) -> SpecLocation {
        SpecLocation {
            file: view_opt_string(self.file),
            func: view_opt_string(self.func),
            line: self.line,
        }
    }
}

impl Location {
    /// Constructs a new `Location`.
    pub fn new(file: Option<String>, func: Option<String>, line: Option<u32>) -> (r: Location)
        ensures
            r@.file == view_opt_string(file),
            r@.func == view_opt_string(func),
            r@.line == line,
    {
        Location { file, func, line }
    }

    /// The code file where the record was generated. `None` if not available.
    pub fn file(&self) -> (r: &Option<String>)
        ensures
            view_opt_string(*r) == self@.file,
    {
        &self.file
    }

    /// The function where the record was generated. `None` if not available.
    pub fn func(&self) -> (r: &Option<String>)
        ensures
            view_opt_string(*r) == self@.func,
    {
        &self.func
    }

    /// The code line where the record was generated. `None` if not available.
    pub fn line(&self) -> (r: Option<u32>)
        ensures
            r == self@.line,
    {
        self.line
    }
}

/// Equality of two optional strings, by contents.
pub open spec fn spec_opt_string_eq(a: Option<Seq<char>>, b: Option<Seq<char>>) -> bool {
    match (a, b) {
        (Some(x), Some(y)) => x == y,
        (None, None) => true,
        _ => false,
    }
}

/// Compares two optional strings by contents.
pub fn opt_string_eq(a: &Option<String>, b: &Option<String>) -> (r: bool)
    ensures
        r == spec_opt_string_eq(view_opt_string(*a), view_opt_string(*b)),
{
    match (a, b) {
        (Some(x), Some(y)) => *x == *y,
        (None, None) => true,
        _ => false,
    }
}

impl SpecLocation {
    /// Equality of location values, by contents.
    pub open spec fn spec_eq(self, other: SpecLocation) -> bool {
        spec_opt_string_eq(self.file, other.file) && spec_opt_string_eq(self.func, other.func)
            && self.line == other.line
    }
}

impl PartialEq for Location {
    fn eq(&self, other: &Location) -> (r: bool) {
        opt_string_eq(&self.file, &other.file) && opt_string_eq(&self.func, &other.func)
            && self.line == other.line
    }
}

impl vstd::std_specs::cmp::PartialEqSpecImpl for Location {
    open spec fn obeys_eq_spec() -> bool {
        true
    }

    open spec fn eq_spec(&self, other: &Location) -> bool {
        self@.spec_eq(other@)
    }
}

impl Eq for Location {}

/// The mathematical value of a [`Meta`].
pub ghost struct SpecMeta {
    pub level: Level,
    pub datetime: DateTime,
    pub location: SpecLocation,
    pub tag: Option<Seq<char>>,
    pub thread_id: Option<u64>,
}

/// Represents metadata associated with a log record.
#[derive(Clone, Debug)]
pub struct Meta {
    pub level: Level,
    pub datetime: DateTime,
    pub location: Location,
    pub tag: Option<String>,
    pub thread_id: Option<u64>,
}

impl View for Meta {
    type V = SpecMeta;

    open spec fn view(&self) -> SpecMeta {
        SpecMeta {
            level: self.level,
            datetime: self.datetime,
            location: self.location@,
            tag: view_opt_string(self.tag),
            thread_id: self.thread_id,
        }
    }
}

impl Meta {
    /// Constructs a new `Meta`.
    pub fn new(
        level: Level,
        datetime: DateTime,
        location: Location,
        tag: Option<String>,
        thread_id: Option<u64>,
    ) -> (r: Meta)
        ensures
            r@.level == level,
            r@.datetime == datetime,
            r@.location == location@,
            r@.tag == view_opt_string(tag),
            r@.thread_id == thread_id,
    {
        Meta { level, datetime, location, tag, thread_id }
    }

    /// The level of the record.
    pub fn level(&self) -> (r: Level)
        ensures
            r == self@.level,
    {
        self.level
    }

    /// The datetime when the record was generated.
    pub fn datetime(&self) -> (r: DateTime)
        ensures
            r == self@.datetime,
    {
        self.datetime
    }

    /// The location in the code where the record was generated.
    pub fn location(&self) -> (r: &Location)
        ensures
            r@ == self@.location,
    {
        &self.location
    }

    /// An optional tag associated with the record.
    pub fn tag(&self) -> (r: &Option<String>)
        ensures
            view_opt_string(*r) == self@.tag,
    {
        &self.tag
    }

    /// The identifier of the thread where the record was generated.
    pub fn thread_id(&self) -> (r: Option<u64>)
        ensures
            r == self@.thread_id,
    {
        self.thread_id
    }
}

impl SpecMeta {
    /// Equality of metadata values, by contents.
    pub open spec fn spec_eq(self, other: SpecMeta) -> bool {
        self.level == other.level && self.datetime == other.datetime
            && self.location.spec_eq(other.location) && spec_opt_string_eq(self.tag, other.tag)
            && self.thread_id == other.thread_id
    }

    /// Validity of metadata: the datetime is representable.
    pub open spec fn wf(self) -> bool {
        self.datetime.wf()
    }
}

impl PartialEq for Meta {
    fn eq(&self, other: &Meta) -> (r: bool) {
        self.level == other.level && self.datetime == other.datetime && self.location
            == other.location && opt_string_eq(&self.tag, &other.tag) && self.thread_id
            == other.thread_id
    }
}

impl vstd::std_specs::cmp::PartialEqSpecImpl for Meta {
    open spec fn obeys_eq_spec() -> bool {
        true
    }

    open spec fn eq_spec(&self, other: &Meta) -> bool {
        self@.spec_eq(other@)
    }
}

impl Eq for Meta {}

impl Default for Meta {
    /// The default metadata: an informational record stamped with the current
    /// time, with no location, tag or thread identifier.
    fn default() -> (r: Meta)
        ensures
            r@.level == Level::Info,
            r@.datetime.wf(),
            r@.location == (Location { file: None, func: None, line: None })@,
            r@.tag == Option::<Seq<char>>::None,
            r@.thread_id == Option::<u64>::None,
    {
        Meta {
            level: Level::Info,
            datetime: DateTime::now(),
            location: Location { file: None, func: None, line: None },
            tag: None,
            thread_id: None,
        }
    }
}

/// The mathematical value of a [`Record`].
pub ghost struct SpecRecord {
    pub meta: SpecMeta,
    pub content: Seq<char>,
}

/// Represents a single log record: its metadata and its content text.
#[derive(Clone, Debug)]
pub struct Record {
    pub meta: Meta,
    pub content: String,
}

impl View for Record {
    type V = SpecRecord;

    open spec fn view(&self) -> SpecRecord {
        SpecRecord { meta: self.meta@, content: self.content@ }
    }
}

impl Record {
    /// Constructs a new `Record`.
    pub fn new(meta: Meta, content: String) -> (r: Record)
        ensures
            r@.meta == meta@,
            r@.content == content@,
    {
        Record { meta, content }
    }

    /// The metadata associated with the record.
    pub fn meta(&self) -> (r: &Meta)
        ensures
            r@ == self@.meta,
    {
        &self.meta
    }

    /// The content of the record.
    pub fn content(&self) -> (r: &String)
        ensures
            r@ == self@.content,
    {
        &self.content
    }
}

impl SpecRecord {
    /// Equality of record values, by contents.
    pub open spec fn spec_eq(self, other: SpecRecord) -> bool {
        self.meta.spec_eq(other.meta) && self.content == other.content
    }

    /// Validity of a record: its metadata is valid.
    pub open spec fn wf(self) -> bool {
        self.meta.wf()
    }
}

impl PartialEq for Record {
    fn eq(&self, other: &Record) -> (r: bool) {
        self.meta == other.meta && self.content == other.content
    }
}

impl vstd::std_specs::cmp::PartialEqSpecImpl for Record {
    open spec fn obeys_eq_spec() -> bool {
        true
    }

    open spec fn eq_spec(&self, other: &Record) -> bool {
        self@.spec_eq(other@)
    }
}

impl Eq for Record {}

impl Default for Record {
    /// The default record: default metadata and empty content.
    fn default() -> (r: Record)
        ensures
            r@.meta.level == Level::Info,
            r@.meta.datetime.wf(),
            r@.content == Seq::<char>::empty(),
    {
        Record { meta: Meta::default(), content: String::new() }
    }
}


/// Builds a [`Location`] field by field, starting from the default.
pub struct LocationBuilder {
    /// The value built so far.
    pub inner: Location,
}

impl LocationBuilder {
    /// Starts from the default location.
    pub fn new() -> (r: LocationBuilder)
        ensures
            r.inner@.file is None,
            r.inner@.func is None,
            r.inner@.line is None,
    {
        LocationBuilder { inner: Location { file: None, func: None, line: None } }
    }

    /// Sets the file field.
    pub fn file(self, value: &str) -> (r: LocationBuilder)
        ensures
            r.inner@ == (SpecLocation { file: Some(value@), ..self.inner@ }),
    {
        LocationBuilder { inner: Location { file: Some(value.to_owned()), ..self.inner } }
    }

    /// Sets the function field.
    pub fn func(self, value: &str) -> (r: LocationBuilder)
        ensures
            r.inner@ == (SpecLocation { func: Some(value@), ..self.inner@ }),
    {
        LocationBuilder { inner: Location { func: Some(value.to_owned()), ..self.inner } }
    }

    /// Sets the line field.
    pub fn line(self, value: u32) -> (r: LocationBuilder)
        ensures
            r.inner@ == (SpecLocation { line: Some(value), ..self.inner@ }),
    {
        LocationBuilder { inner: Location { line: Some(value), ..self.inner } }
    }

    /// Takes the built location.
    pub fn build(self) -> (r: Location)
        ensures
            r@ == self.inner@,
    {
        self.inner
    }
}

/// Builds a [`Meta`] field by field, starting from the default.
pub struct MetaBuilder {
    /// The value built so far.
    pub inner: Meta,
}

impl MetaBuilder {
    /// Starts from the default metadata: informational, stamped now.
    pub fn new() -> (r: MetaBuilder)
        ensures
            r.inner@.level == Level::Info,
            r.inner@.datetime.wf(),
            r.inner@.tag is None,
            r.inner@.thread_id is None,
    {
        MetaBuilder { inner: Meta::default() }
    }

    /// Sets the level.
    pub fn level(self, value: Level) -> (r: MetaBuilder)
        ensures
            r.inner@ == (SpecMeta { level: value, ..self.inner@ }),
    {
        MetaBuilder { inner: Meta { level: value, ..self.inner } }
    }

    /// Sets the datetime.
    pub fn datetime(self, value: DateTime) -> (r: MetaBuilder)
        ensures
            r.inner@ == (SpecMeta { datetime: value, ..self.inner@ }),
    {
        MetaBuilder { inner: Meta { datetime: value, ..self.inner } }
    }

    /// Sets the location.
    pub fn location(self, value: Location) -> (r: MetaBuilder)
        ensures
            r.inner@ == (SpecMeta { location: value@, ..self.inner@ }),
    {
        MetaBuilder { inner: Meta { location: value, ..self.inner } }
    }

    /// Sets the tag.
    pub fn tag(self, value: &str) -> (r: MetaBuilder)
        ensures
            r.inner@ == (SpecMeta { tag: Some(value@), ..self.inner@ }),
    {
        MetaBuilder { inner: Meta { tag: Some(value.to_owned()), ..self.inner } }
    }

    /// Sets the thread identifier.
    pub fn thread_id(self, value: u64) -> (r: MetaBuilder)
        ensures
            r.inner@ == (SpecMeta { thread_id: Some(value), ..self.inner@ }),
    {
        MetaBuilder { inner: Meta { thread_id: Some(value), ..self.inner } }
    }

    /// Takes the built metadata.
    pub fn build(self) -> (r: Meta)
        ensures
            r@ == self.inner@,
    {
        self.inner
    }
}

/// Builds a [`Record`] field by field, starting from the default.
pub struct RecordBuilder {
    /// The value built so far.
    pub inner: Record,
}

impl RecordBuilder {
    /// Starts from the default record.
    pub fn new() -> (r: RecordBuilder)
        ensures
            r.inner@.meta.level == Level::Info,
            r.inner@.meta.datetime.wf(),
            r.inner@.content == Seq::<char>::empty(),
    {
        RecordBuilder { inner: Record::default() }
    }

    /// Sets the metadata.
    pub fn meta(self, value: Meta) -> (r: RecordBuilder)
        ensures
            r.inner@ == (SpecRecord { meta: value@, ..self.inner@ }),
    {
        RecordBuilder { inner: Record { meta: value, ..self.inner } }
    }

    /// Sets the content.
    pub fn content(self, value: &str) -> (r: RecordBuilder)
        ensures
            r.inner@ == (SpecRecord { content: value@, ..self.inner@ }),
    {
        RecordBuilder { inner: Record { content: value.to_owned(), ..self.inner } }
    }

    /// Takes the built record.
    pub fn build(self) -> (r: Record)
        ensures
            r@ == self.inner@,
    {
        self.inner
    }
}

} // verus!
