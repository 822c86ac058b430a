//! Dialect model: the parameters that define how bytes become records.

use vstd::prelude::*;

verus! {

/// Policy applied to records that violate the dialect's length or size rules.
#[derive(Clone, Copy, Debug, PartialEq, Eq, Structural)]
pub enum MalformedMode {
    Strict,
    Skip,
    Repair,
}

/// Record terminator convention. `Auto` scans like `Crlf`, which accepts
/// `\r\n`, a lone `\n` and a lone `\r`.
#[derive(Clone, Copy, Debug, PartialEq, Eq, Structural)]
pub enum LineEnding {
    Lf,
    Cr,
    Crlf,
    Auto,
}

/// Effective dialect of an open file: how records are delimited, quoted,
/// terminated and decoded, plus the malformed-row policy and size caps.
#[derive(Clone, Debug)]
pub struct ParseSettings {
    pub delimiter: u8,
    pub quote: u8,
    pub escape: Option<u8>,
    pub line_ending: LineEnding,
    pub has_headers: bool,
    pub encoding_label: String,
    pub malformed: MalformedMode,
    pub max_field_size: usize,
    pub max_record_size: usize,
}

pub const DEFAULT_MAX_FIELD_SIZE: usize = 262144;

pub const DEFAULT_MAX_RECORD_SIZE: usize = 2097152;

/// What dialect detection found for an opened file, before user overrides.
#[derive(Clone, Debug)]
pub struct DetectedSettings {
    pub delimiter: u8,
    pub quote: u8,
    pub escape: Option<u8>,
    pub line_ending: LineEnding,
    pub encoding_label: String,
    pub has_headers: bool,
}

/// Comma-separated, double-quoted, CRLF-tolerant UTF-8 with headers and the
/// skip policy: the settings used before any file has been inspected.
pub fn default_parse_settings() -> (r: ParseSettings)
    ensures
        r.delimiter == 44u8,
        r.quote == 34u8,
        r.escape is None,
        r.line_ending == LineEnding::Auto,
        r.has_headers == true,
        r.encoding_label@ == "utf-8"@,
        r.malformed == MalformedMode::Skip,
        r.max_field_size == DEFAULT_MAX_FIELD_SIZE,
        r.max_record_size == DEFAULT_MAX_RECORD_SIZE,
{
    ParseSettings {
        delimiter: 44u8,
        quote: 34u8,
        escape: None,
        line_ending: LineEnding::Auto,
        has_headers: true,
        encoding_label: String::from_str("utf-8"),
        malformed: MalformedMode::Skip,
        max_field_size: DEFAULT_MAX_FIELD_SIZE,
        max_record_size: DEFAULT_MAX_RECORD_SIZE,
    }
}

impl MalformedMode {
    /// Parse a policy name; anything unrecognized is strict.
    pub fn from_str(value: &str) -> (r: MalformedMode)
        ensures
            r == (if value@ == "skip"@ {
                MalformedMode::Skip
            } else if value@ == "repair"@ {
                MalformedMode::Repair
            } else {
                MalformedMode::Strict
            }),
    {
        if crate::text::str_eq(value, "skip") {
            MalformedMode::Skip
        } else if crate::text::str_eq(value, "repair") {
            MalformedMode::Repair
        } else {
            MalformedMode::Strict
        }
    }

    /// The policy's name.
    pub fn as_str(&self) -> (r: &'static str)
        ensures
            self is Strict ==> r@ == "strict"@,
            self is Skip ==> r@ == "skip"@,
            self is Repair ==> r@ == "repair"@,
    {
        match self {
            MalformedMode::Strict => "strict",
            MalformedMode::Skip => "skip",
            MalformedMode::Repair => "repair",
        }
    }
}

/// User overrides for any subset of the dialect, with symbolic aliases.
#[derive(Clone, Debug)]
pub struct ParseOverrides {
    pub delimiter: Option<String>,
    pub quote: Option<String>,
    pub escape: Option<String>,
    pub line_ending: Option<String>,
    pub encoding: Option<String>,
    pub has_headers: Option<bool>,
    pub malformed: Option<String>,
    pub max_field_size: Option<usize>,
    pub max_record_size: Option<usize>,
}

/// The dialect as user-facing strings.
#[derive(Clone, Debug)]
pub struct ParseInfo {
    pub delimiter: String,
    pub quote: String,
    pub escape: Option<String>,
    pub line_ending: String,
    pub encoding: String,
    pub has_headers: bool,
    pub malformed: String,
    pub max_field_size: usize,
    pub max_record_size: usize,
}

/// A normalized delimiter override: symbolic aliases or a single
/// one-byte character, over the lowercased trimmed input.
pub open spec fn spec_normalize_delimiter(t: Seq<char>) -> Option<u8> {
    if t == "comma"@ || t == ","@ {
        Option::Some(44u8)
    } else if t == "tab"@ || t == "\\t"@ || t == "tsv"@ {
        Option::Some(9u8)
    } else if t == "semicolon"@ || t == ";"@ {
        Option::Some(59u8)
    } else if t == "pipe"@ || t == "|"@ {
        Option::Some(124u8)
    } else if t == "space"@ || t == " "@ {
        Option::Some(32u8)
    } else if t.len() == 1 && (t[0] as u32) < 128 {
        Option::Some(t[0] as u8)
    } else {
        Option::None
    }
}

/// Normalize a delimiter override.
pub fn normalize_delimiter(value: &str) -> (r: Option<u8>)
    ensures
        r == spec_normalize_delimiter(
            crate::detect::spec_trim(crate::text::lower_of(value@)),
        ),
{
    let low = crate::text::to_lowercase(value);
    let lc = crate::text::chars_vec(low.as_str());
    let t = crate::detect::trim_chars(&lc);
    if eq_to_lit(&t, "comma") || eq_to_lit(&t, ",") {
        Some(44u8)
    } else if eq_to_lit(&t, "tab") || eq_to_lit(&t, "\\t") || eq_to_lit(&t, "tsv") {
        Some(9u8)
    } else if eq_to_lit(&t, "semicolon") || eq_to_lit(&t, ";") {
        Some(59u8)
    } else if eq_to_lit(&t, "pipe") || eq_to_lit(&t, "|") {
        Some(124u8)
    } else if eq_to_lit(&t, "space") || eq_to_lit(&t, " ") {
        Some(32u8)
    } else if t.len() == 1 && (t[0] as u32) < 128 {
        Some(t[0] as u8)
    } else {
        None
    }
}

/// Whether the characters equal a literal's characters.
fn eq_to_lit(t: &Vec<char>, lit: &str) -> (r: bool)
    ensures
        r == (t@ == lit@),
{
    let lv = crate::text::chars_vec(lit);
    crate::text::eq_chars(t, &lv)
}

/// A normalized quote override.
pub open spec fn spec_normalize_quote(t: Seq<char>) -> Option<u8> {
    if t == "double"@ || t == "\""@ {
        Option::Some(34u8)
    } else if t == "single"@ || t == "'"@ {
        Option::Some(39u8)
    } else if t.len() == 1 && (t[0] as u32) < 128 {
        Option::Some(t[0] as u8)
    } else {
        Option::None
    }
}

pub fn normalize_quote(value: &str) -> (r: Option<u8>)
    ensures
        r == spec_normalize_quote(crate::detect::spec_trim(crate::text::lower_of(value@))),
{
    let low = crate::text::to_lowercase(value);
    let lc = crate::text::chars_vec(low.as_str());
    let t = crate::detect::trim_chars(&lc);
    if eq_to_lit(&t, "double") || eq_to_lit(&t, "\"") {
        Some(34u8)
    } else if eq_to_lit(&t, "single") || eq_to_lit(&t, "'") {
        Some(39u8)
    } else if t.len() == 1 && (t[0] as u32) < 128 {
        Some(t[0] as u8)
    } else {
        None
    }
}

/// A normalized escape override: `none` switches escapes off.
pub open spec fn spec_normalize_escape(t: Seq<char>) -> Option<Option<u8>> {
    if t == "none"@ || t == "off"@ {
        Option::Some(Option::None)
    } else if t == "backslash"@ || t == "\\\\"@ || t == "\\"@ {
        Option::Some(Option::Some(92u8))
    } else if t.len() == 1 && (t[0] as u32) < 128 {
        Option::Some(Option::Some(t[0] as u8))
    } else {
        Option::None
    }
}

pub fn normalize_escape(value: &str) -> (r: Option<Option<u8>>)
    ensures
        r == spec_normalize_escape(crate::detect::spec_trim(crate::text::lower_of(value@))),
{
    let low = crate::text::to_lowercase(value);
    let lc = crate::text::chars_vec(low.as_str());
    let t = crate::detect::trim_chars(&lc);
    if eq_to_lit(&t, "none") || eq_to_lit(&t, "off") {
        Some(None)
    } else if eq_to_lit(&t, "backslash") || eq_to_lit(&t, "\\\\") || eq_to_lit(&t, "\\") {
        Some(Some(92u8))
    } else if t.len() == 1 && (t[0] as u32) < 128 {
        Some(Some(t[0] as u8))
    } else {
        None
    }
}

/// A normalized line-ending override.
pub open spec fn spec_normalize_line_ending(t: Seq<char>) -> Option<LineEnding> {
    if t == "lf"@ || t == "\\n"@ {
        Option::Some(LineEnding::Lf)
    } else if t == "cr"@ || t == "\\r"@ {
        Option::Some(LineEnding::Cr)
    } else if t == "crlf"@ || t == "\\r\\n"@ {
        Option::Some(LineEnding::Crlf)
    } else if t == "auto"@ {
        Option::Some(LineEnding::Auto)
    } else {
        Option::None
    }
}

pub fn normalize_line_ending(value: &str) -> (r: Option<LineEnding>)
    ensures
        r == spec_normalize_line_ending(
            crate::detect::spec_trim(crate::text::lower_of(value@)),
        ),
{
    let low = crate::text::to_lowercase(value);
    let lc = crate::text::chars_vec(low.as_str());
    let t = crate::detect::trim_chars(&lc);
    if eq_to_lit(&t, "lf") || eq_to_lit(&t, "\\n") {
        Some(LineEnding::Lf)
    } else if eq_to_lit(&t, "cr") || eq_to_lit(&t, "\\r") {
        Some(LineEnding::Cr)
    } else if eq_to_lit(&t, "crlf") || eq_to_lit(&t, "\\r\\n") {
        Some(LineEnding::Crlf)
    } else if eq_to_lit(&t, "auto") {
        Some(LineEnding::Auto)
    } else {
        None
    }
}

/// The encoding alias map applied before label resolution.
pub open spec fn spec_encoding_alias(t: Seq<char>) -> Seq<char> {
    if t == "latin1"@ || t == "latin-1"@ {
        "iso-8859-1"@
    } else if t == "utf8"@ {
        "utf-8"@
    } else {
        t
    }
}

/// Merge detected settings with user overrides: every recognized override
/// replaces its field, anything else keeps the detected value; the policy
/// defaults to skip and the size caps to their defaults.
pub fn apply_parse_overrides(detected: &DetectedSettings, overrides: &Option<ParseOverrides>) -> (r:
    ParseSettings)
    ensures
        r.delimiter == (match overrides {
            Option::Some(o) => match o.delimiter {
                Option::Some(v) => match spec_normalize_delimiter(
                    crate::detect::spec_trim(crate::text::lower_of(v@)),
                ) {
                    Option::Some(d) => d,
                    Option::None => detected.delimiter,
                },
                Option::None => detected.delimiter,
            },
            Option::None => detected.delimiter,
        }),
        r.quote == (match overrides {
            Option::Some(o) => match o.quote {
                Option::Some(v) => match spec_normalize_quote(
                    crate::detect::spec_trim(crate::text::lower_of(v@)),
                ) {
                    Option::Some(d) => d,
                    Option::None => detected.quote,
                },
                Option::None => detected.quote,
            },
            Option::None => detected.quote,
        }),
        r.escape == (match overrides {
            Option::Some(o) => match o.escape {
                Option::Some(v) => match spec_normalize_escape(
                    crate::detect::spec_trim(crate::text::lower_of(v@)),
                ) {
                    Option::Some(e) => e,
                    Option::None => detected.escape,
                },
                Option::None => detected.escape,
            },
            Option::None => detected.escape,
        }),
        r.line_ending == (match overrides {
            Option::Some(o) => match o.line_ending {
                Option::Some(v) => match spec_normalize_line_ending(
                    crate::detect::spec_trim(crate::text::lower_of(v@)),
                ) {
                    Option::Some(e) => e,
                    Option::None => detected.line_ending,
                },
                Option::None => detected.line_ending,
            },
            Option::None => detected.line_ending,
        }),
        r.encoding_label@ == (match overrides {
            Option::Some(o) => match o.encoding {
                Option::Some(v) => match crate::text::label_canon(
                    spec_encoding_alias(crate::detect::spec_trim(crate::text::lower_of(v@))),
                ) {
                    Option::Some(name) => name,
                    Option::None => detected.encoding_label@,
                },
                Option::None => detected.encoding_label@,
            },
            Option::None => detected.encoding_label@,
        }),
        r.has_headers == (match overrides {
            Option::Some(o) => match o.has_headers {
                Option::Some(v) => v,
                Option::None => detected.has_headers,
            },
            Option::None => detected.has_headers,
        }),
        r.malformed == (match overrides {
            Option::Some(o) => match o.malformed {
                Option::Some(v) => if v@ == "skip"@ {
                    MalformedMode::Skip
                } else if v@ == "repair"@ {
                    MalformedMode::Repair
                } else {
                    MalformedMode::Strict
                },
                Option::None => MalformedMode::Skip,
            },
            Option::None => MalformedMode::Skip,
        }),
        r.max_field_size == (match overrides {
            Option::Some(o) => match o.max_field_size {
                Option::Some(v) => v,
                Option::None => DEFAULT_MAX_FIELD_SIZE,
            },
            Option::None => DEFAULT_MAX_FIELD_SIZE,
        }),
        r.max_record_size == (match overrides {
            Option::Some(o) => match o.max_record_size {
                Option::Some(v) => v,
                Option::None => DEFAULT_MAX_RECORD_SIZE,
            },
            Option::None => DEFAULT_MAX_RECORD_SIZE,
        }),
{
    let mut delimiter = detected.delimiter;
    let mut quote = detected.quote;
    let mut escape = detected.escape;
    let mut line_ending = detected.line_ending;
    let mut encoding_label = detected.encoding_label.clone();
    assert(encoding_label@ == detected.encoding_label@);
    let mut has_headers = detected.has_headers;
    let mut malformed = MalformedMode::Skip;
    let mut max_field_size = DEFAULT_MAX_FIELD_SIZE;
    let mut max_record_size = DEFAULT_MAX_RECORD_SIZE;
    match overrides {
        Some(o) => {
            match &o.delimiter {
                Some(v) => {
                    match normalize_delimiter(v.as_str()) {
                        Some(d) => {
                            delimiter = d;
                        },
                        None => {},
                    }
                },
                None => {},
            }
            match &o.quote {
                Some(v) => {
                    match normalize_quote(v.as_str()) {
                        Some(d) => {
                            quote = d;
                        },
                        None => {},
                    }
                },
                None => {},
            }
            match &o.escape {
                Some(v) => {
                    match normalize_escape(v.as_str()) {
                        Some(e) => {
                            escape = e;
                        },
                        None => {},
                    }
                },
                None => {},
            }
            match &o.line_ending {
                Some(v) => {
                    match normalize_line_ending(v.as_str()) {
                        Some(e) => {
                            line_ending = e;
                        },
                        None => {},
                    }
                },
                None => {},
            }
            match &o.encoding {
                Some(v) => {
                    let low = crate::text::to_lowercase(v.as_str());
                    let lc = crate::text::chars_vec(low.as_str());
                    let t = crate::detect::trim_chars(&lc);
                    let alias: &str = if eq_to_lit(&t, "latin1") || eq_to_lit(&t, "latin-1") {
                        "iso-8859-1"
                    } else if eq_to_lit(&t, "utf8") {
                        "utf-8"
                    } else {
                        ""
                    };
                    if eq_to_lit(&t, "latin1") || eq_to_lit(&t, "latin-1") || eq_to_lit(
                        &t,
                        "utf8",
                    ) {
                        match crate::text::encoding_for_label(alias) {
                            Some(name) => {
                                encoding_label = name;
                            },
                            None => {},
                        }
                    } else {
                        let mut owned = String::new();
                        let mut i: usize = 0;
                        while i < t.len()
                            invariant
                                0 <= i <= t@.len(),
                                owned@ == t@.take(i as int),
                            decreases t@.len() - i,
                        {
                            let cs = crate::text::char_string(t[i]);
                            owned.append(cs.as_str());
                            i = i + 1;
                            assert(owned@ =~= t@.take(i as int));
                        }
                        assert(owned@ =~= t@);
                        match crate::text::encoding_for_label(owned.as_str()) {
                            Some(name) => {
                                encoding_label = name;
                            },
                            None => {},
                        }
                    }
                },
                None => {},
            }
            match o.has_headers {
                Some(v) => {
                    has_headers = v;
                },
                None => {},
            }
            match &o.malformed {
                Some(v) => {
                    malformed = MalformedMode::from_str(v.as_str());
                },
                None => {},
            }
            match o.max_field_size {
                Some(v) => {
                    max_field_size = v;
                },
                None => {},
            }
            match o.max_record_size {
                Some(v) => {
                    max_record_size = v;
                },
                None => {},
            }
        },
        None => {},
    }
    ParseSettings {
        delimiter,
        quote,
        escape,
        line_ending,
        has_headers,
        encoding_label,
        malformed,
        max_field_size,
        max_record_size,
    }
}

/// The label strings of the enums for the user-facing dialect.
pub open spec fn spec_ending_label(e: LineEnding) -> Seq<char> {
    match e {
        LineEnding::Lf => "lf"@,
        LineEnding::Cr => "cr"@,
        LineEnding::Crlf => "crlf"@,
        LineEnding::Auto => "auto"@,
    }
}

/// The dialect rendered as user-facing strings.
pub fn parse_info_from_settings(settings: &ParseSettings) -> (r: ParseInfo)
    ensures
        r.delimiter@ == seq![settings.delimiter as char],
        r.quote@ == seq![settings.quote as char],
        (r.escape is Some <==> settings.escape is Some),
        r.escape matches Option::Some(e) ==> e@ == seq![settings.escape->0 as char],
        r.line_ending@ == spec_ending_label(settings.line_ending),
        r.encoding@ == settings.encoding_label@,
        r.has_headers == settings.has_headers,
        (settings.malformed is Strict ==> r.malformed@ == "strict"@),
        (settings.malformed is Skip ==> r.malformed@ == "skip"@),
        (settings.malformed is Repair ==> r.malformed@ == "repair"@),
        r.max_field_size == settings.max_field_size,
        r.max_record_size == settings.max_record_size,
{
    let ending: &str = match settings.line_ending {
        LineEnding::Lf => "lf",
        LineEnding::Cr => "cr",
        LineEnding::Crlf => "crlf",
        LineEnding::Auto => "auto",
    };
    ParseInfo {
        delimiter: crate::text::char_string(settings.delimiter as char),
        quote: crate::text::char_string(settings.quote as char),
        escape: match settings.escape {
            Some(e) => Some(crate::text::char_string(e as char)),
            None => None,
        },
        line_ending: String::from_str(ending),
        encoding: settings.encoding_label.clone(),
        has_headers: settings.has_headers,
        malformed: String::from_str(settings.malformed.as_str()),
        max_field_size: settings.max_field_size,
        max_record_size: settings.max_record_size,
    }
}

/// The bytes hashed into the dialect's cache fingerprint.
pub open spec fn spec_settings_bytes(s: ParseSettings) -> Seq<u8> {
    seq![
        s.delimiter,
        s.quote,
        (if s.escape is Some {
            1u8
        } else {
            0u8
        }),
        (match s.escape {
            Option::Some(e) => e,
            Option::None => 0u8,
        }),
        (match s.line_ending {
            LineEnding::Lf => 0u8,
            LineEnding::Cr => 1u8,
            LineEnding::Crlf => 2u8,
            LineEnding::Auto => 3u8,
        }),
        (if s.has_headers {
            1u8
        } else {
            0u8
        }),
        (match s.malformed {
            MalformedMode::Strict => 0u8,
            MalformedMode::Skip => 1u8,
            MalformedMode::Repair => 2u8,
        }),
    ] + vstd::utf8::encode_utf8(s.encoding_label@) + seq![0u8]
        + vstd::bytes::spec_u64_to_le_bytes(s.max_field_size as u64)
        + vstd::bytes::spec_u64_to_le_bytes(s.max_record_size as u64)
}

/// The dialect's cache fingerprint: every field hashed into one value.
pub fn settings_cache_hash(settings: &ParseSettings) -> (r: u64)
    ensures
        r == crate::text::sip_hash_of(spec_settings_bytes(*settings)),
{
    let mut buf: Vec<u8> = Vec::new();
    buf.push(settings.delimiter);
    buf.push(settings.quote);
    buf.push(
        if settings.escape.is_some() {
            1u8
        } else {
            0u8
        },
    );
    buf.push(
        match settings.escape {
            Some(e) => e,
            None => 0u8,
        },
    );
    buf.push(
        match settings.line_ending {
            LineEnding::Lf => 0u8,
            LineEnding::Cr => 1u8,
            LineEnding::Crlf => 2u8,
            LineEnding::Auto => 3u8,
        },
    );
    buf.push(
        if settings.has_headers {
            1u8
        } else {
            0u8
        },
    );
    buf.push(
        match settings.malformed {
            MalformedMode::Strict => 0u8,
            MalformedMode::Skip => 1u8,
            MalformedMode::Repair => 2u8,
        },
    );
    let ghost head = buf@;
    let lb = settings.encoding_label.as_str().as_bytes();
    let mut i: usize = 0;
    while i < lb.len()
        invariant
            0 <= i <= lb@.len(),
            buf@ == head + lb@.take(i as int),
        decreases lb@.len() - i,
    {
        buf.push(lb[i]);
        i = i + 1;
        assert(buf@ =~= head + lb@.take(i as int));
    }
    assert(buf@ =~= head + lb@);
    buf.push(0u8);
    crate::diskcache::write_u64(&mut buf, settings.max_field_size as u64);
    crate::diskcache::write_u64(&mut buf, settings.max_record_size as u64);
    proof {
        assert(buf@ =~= spec_settings_bytes(*settings));
    }
    crate::text::sip_hash(buf.as_slice())
}

} // verus!
