//! The positional config store and the full-record aggregator.
//!
//! A profile's record is text of exactly six lines, one per field in
//! canonical order, each `<FieldName>: <value>`. A field is located by its
//! line index alone; names are never matched at read time. `set` rewrites
//! the whole record; `get` reads the next line of a shared cursor, so the
//! aggregator must call the six getters in canonical order.

use vstd::prelude::*;

use crate::codec::{
    field_accepts, field_name, line_index, spec_field_name, spec_line_index, tz_accepts, validate,
    FieldKind,
};
use crate::codec::is_float_text;
use crate::errors::ConfigError;
use crate::text::{
    is_u64_text, is_u8_text, join_newline, join_text, parse_u64, parse_u8, split_char, split_text,
    u64_text_value, views_of,
};

verus! {

/// The placeholder lines a fresh record is built from: each field's key and
/// colon, with no value yet.
pub open spec fn template_lines() -> Seq<Seq<char>> {
    seq![
        "RelayCount:"@,
        "RelayMax:"@,
        "MaxTime:"@,
        "GpioPin:"@,
        "Timezone:"@,
        "Multiplier:"@,
    ]
}

/// One written record line: the field's key, a colon and a space, then the
/// raw value.
pub open spec fn field_line(k: FieldKind, v: Seq<char>) -> Seq<char> {
    spec_field_name(k) + ":"@ + " "@ + v
}

pub open spec fn opt_view(existing: Option<&String>) -> Option<Seq<char>> {
    match existing {
        None => None,
        Some(c) => Some(c@),
    }
}

/// What setting one field writes: the raw value must pass the field's
/// validator; the base record (the fixed template for a fresh profile, the
/// line split of the existing content otherwise) has the field's own line
/// replaced, and the lines are joined back into one text.
pub open spec fn spec_set(k: FieldKind, raw: Seq<char>, existing: Option<Seq<char>>) -> Result<
    Seq<char>,
    ConfigError,
> {
    if !field_accepts(k, raw) {
        Err(ConfigError::FieldFormat)
    } else {
        let base = match existing {
            None => template_lines(),
            Some(c) => split_text(c, '\n'),
        };
        Ok(join_text(base.update(spec_line_index(k), field_line(k, raw)), '\n'))
    }
}

/// Validate a raw value and write it into its fixed line of the record.
///
/// `existing` is the current content of the profile's config file, or
/// `None` when the file does not exist yet. The caller owns the file
/// handling: it hands the whole old content in and writes the whole result
/// back.
pub fn set_field(k: FieldKind, raw: &str, existing: Option<&String>) -> (r: Result<
    String,
    ConfigError,
>)
    requires
        existing matches Some(c) ==> spec_line_index(k) < split_text(c@, '\n').len(),
    ensures
        match r {
            Ok(content) => spec_set(k, raw@, opt_view(existing)) == Ok::<Seq<char>, ConfigError>(
                content@,
            ),
            Err(e) => spec_set(k, raw@, opt_view(existing)) == Err::<Seq<char>, ConfigError>(e),
        },
{
    if !validate(k, raw) {
        return Err(ConfigError::FieldFormat);
    }
    let idx = line_index(k);
    let mut lines: Vec<String> = match existing {
        None => {
            let mut t: Vec<String> = Vec::new();
            t.push("RelayCount:".to_owned());
            t.push("RelayMax:".to_owned());
            t.push("MaxTime:".to_owned());
            t.push("GpioPin:".to_owned());
            t.push("Timezone:".to_owned());
            t.push("Multiplier:".to_owned());
            proof {
                assert(views_of(t@) =~~= template_lines());
            }
            t
        },
        Some(c) => split_char(c.as_str(), '\n'),
    };
    let mut line = field_name(k).to_owned();
    line.append(":");
    line.append(" ");
    line.append(raw);
    let ghost base = match opt_view(existing) {
        None => template_lines(),
        Some(c) => split_text(c, '\n'),
    };
    proof {
        assert(views_of(lines@) =~~= base);
        assert(line@ == field_line(k, raw@));
    }
    lines[idx] = line;
    proof {
        assert(views_of(lines@) =~~= base.update(spec_line_index(k), field_line(k, raw@)));
    }
    let joined = join_newline(&lines);
    Ok(joined)
}

/// A sequential cursor over the lines of one record's content.
pub struct LineCursor {
    lines: Vec<String>,
    pos: usize,
}

impl LineCursor {
    pub closed spec fn all_lines(&self) -> Seq<Seq<char>> {
        views_of(self.lines@)
    }

    pub closed spec fn position(&self) -> int {
        self.pos as int
    }

    pub open spec fn wf(&self) -> bool {
        0 <= self.position() <= self.all_lines().len()
    }

    /// The lines the cursor has not yet handed out.
    pub open spec fn remaining(&self) -> Seq<Seq<char>> {
        self.all_lines().skip(self.position())
    }

    /// A cursor at the first line of `content`.
    pub fn new(content: &str) -> (r: LineCursor)
        ensures
            r.all_lines() == split_text(content@, '\n'),
            r.position() == 0,
            r.wf(),
    {
        let lines = split_char(content, '\n');
        LineCursor { lines, pos: 0 }
    }

    /// Hand out the next line, advancing past it.
    pub fn next_line(&mut self) -> (r: Option<String>)
        requires
            old(self).wf(),
        ensures
            final(self).wf(),
            final(self).all_lines() == old(self).all_lines(),
            old(self).remaining().len() == 0 ==> r is None && final(self).position() == old(
                self,
            ).position(),
            old(self).remaining().len() > 0 ==> final(self).position() == old(self).position() + 1
                && (r matches Some(l) && l@ == old(self).remaining()[0]),
    {
        if self.pos < self.lines.len() {
            let l = self.lines[self.pos].clone();
            self.pos = self.pos + 1;
            Some(l)
        } else {
            None
        }
    }
}

/// The value part of one record line: the text after the single space that
/// separates exactly two tokens; a line of any other shape has none.
pub open spec fn spec_line_value(line: Seq<char>) -> Option<Seq<char>> {
    let parts = split_text(line, ' ');
    if parts.len() == 2 {
        Some(parts[1])
    } else {
        None
    }
}

/// What reading the next raw value from the cursor yields: the record is
/// malformed when no line is left or the line does not split into exactly
/// two tokens.
pub open spec fn spec_next_value(rem: Seq<Seq<char>>) -> Result<Seq<char>, ConfigError> {
    if rem.len() == 0 {
        Err(ConfigError::MalformedRecord)
    } else {
        match spec_line_value(rem[0]) {
            Some(v) => Ok(v),
            None => Err(ConfigError::MalformedRecord),
        }
    }
}

/// Advance the cursor one line and take the line's value part.
fn next_value(cursor: &mut LineCursor) -> (r: Result<String, ConfigError>)
    requires
        old(cursor).wf(),
    ensures
        final(cursor).wf(),
        final(cursor).all_lines() == old(cursor).all_lines(),
        final(cursor).position() == if old(cursor).remaining().len() > 0 {
            old(cursor).position() + 1
        } else {
            old(cursor).position()
        },
        match r {
            Ok(v) => spec_next_value(old(cursor).remaining()) == Ok::<Seq<char>, ConfigError>(v@),
            Err(e) => spec_next_value(old(cursor).remaining()) == Err::<Seq<char>, ConfigError>(e),
        },
{
    let line = match cursor.next_line() {
        Some(l) => l,
        None => {
            return Err(ConfigError::MalformedRecord);
        },
    };
    let mut parts = split_char(line.as_str(), ' ');
    if parts.len() == 2 {
        match parts.pop() {
            Some(v) => {
                proof {
                    assert(v@ == split_text(line@, ' ')[1]);
                }
                Ok(v)
            },
            None => {
                proof {
                    assert(false);
                }
                Err(ConfigError::MalformedRecord)
            },
        }
    } else {
        Err(ConfigError::MalformedRecord)
    }
}

/// Parse of an unsigned 64-bit count field from the cursor's next line.
pub open spec fn spec_parse_u64_field(rem: Seq<Seq<char>>) -> Result<u64, ConfigError> {
    match spec_next_value(rem) {
        Err(e) => Err(e),
        Ok(v) => if is_u64_text(v) {
            Ok(u64_text_value(v) as u64)
        } else {
            Err(ConfigError::FieldFormat)
        },
    }
}

/// Parse of the pin field from the cursor's next line.
pub open spec fn spec_parse_u8_field(rem: Seq<Seq<char>>) -> Result<u8, ConfigError> {
    match spec_next_value(rem) {
        Err(e) => Err(e),
        Ok(v) => if is_u8_text(v) {
            Ok(u64_text_value(v) as u8)
        } else {
            Err(ConfigError::FieldFormat)
        },
    }
}

/// Parse of a float field from the cursor's next line: the raw text itself
/// is the value once it passes the float grammar.
pub open spec fn spec_parse_float_field(rem: Seq<Seq<char>>) -> Result<Seq<char>, ConfigError> {
    match spec_next_value(rem) {
        Err(e) => Err(e),
        Ok(v) => if is_float_text(v) {
            Ok(v)
        } else {
            Err(ConfigError::FieldFormat)
        },
    }
}

/// Parse of the timezone field from the cursor's next line: the raw name
/// itself is the value once the external table knows it.
pub open spec fn spec_parse_zone_field(rem: Seq<Seq<char>>) -> Result<Seq<char>, ConfigError> {
    match spec_next_value(rem) {
        Err(e) => Err(e),
        Ok(v) => if tz_accepts(v) {
            Ok(v)
        } else {
            Err(ConfigError::FieldFormat)
        },
    }
}

/// The relay-actuation count field.
pub struct RelayCount(pub u64);

/// The relay maximum-actuations field.
pub struct RelayMax(pub u64);

/// The maximum actuation duration field, in seconds of float text.
pub struct MaxTime(pub String);

/// The GPIO pin id field.
pub struct GpioPin(pub u8);

/// The timezone field, an IANA zone name.
pub struct Timezone(pub String);

/// The actuation-time multiplier field, float text.
pub struct Multiplier(pub String);

impl RelayCount {
    /// Validate and write this field's line; see `set_field`.
    pub fn set(raw: &str, existing: Option<&String>) -> (r: Result<String, ConfigError>)
        requires
            existing matches Some(c) ==> spec_line_index(FieldKind::Count) < split_text(
                c@,
                '\n',
            ).len(),
        ensures
            match r {
                Ok(content) => spec_set(FieldKind::Count, raw@, opt_view(existing)) == Ok::<
                    Seq<char>,
                    ConfigError,
                >(content@),
                Err(e) => spec_set(FieldKind::Count, raw@, opt_view(existing)) == Err::<
                    Seq<char>,
                    ConfigError,
                >(e),
            },
    {
        set_field(FieldKind::Count, raw, existing)
    }

    /// Decode this field from the cursor's next line.
    pub fn get(cursor: &mut LineCursor) -> (r: Result<RelayCount, ConfigError>)
        requires
            old(cursor).wf(),
        ensures
            final(cursor).wf(),
            final(cursor).all_lines() == old(cursor).all_lines(),
            final(cursor).position() == if old(cursor).remaining().len() > 0 {
                old(cursor).position() + 1
            } else {
                old(cursor).position()
            },
            match r {
                Ok(v) => spec_parse_u64_field(old(cursor).remaining()) == Ok::<u64, ConfigError>(
                    v.0,
                ),
                Err(e) => spec_parse_u64_field(old(cursor).remaining()) == Err::<u64, ConfigError>(
                    e,
                ),
            },
    {
        let v = match next_value(cursor) {
            Ok(v) => v,
            Err(e) => {
                return Err(e);
            },
        };
        match parse_u64(v.as_str()) {
            Some(n) => Ok(RelayCount(n)),
            None => Err(ConfigError::FieldFormat),
        }
    }
}

impl RelayMax {
    /// Validate and write this field's line; see `set_field`.
    pub fn set(raw: &str, existing: Option<&String>) -> (r: Result<String, ConfigError>)
        requires
            existing matches Some(c) ==> spec_line_index(FieldKind::MaxCount) < split_text(
                c@,
                '\n',
            ).len(),
        ensures
            match r {
                Ok(content) => spec_set(FieldKind::MaxCount, raw@, opt_view(existing)) == Ok::<
                    Seq<char>,
                    ConfigError,
                >(content@),
                Err(e) => spec_set(FieldKind::MaxCount, raw@, opt_view(existing)) == Err::<
                    Seq<char>,
                    ConfigError,
                >(e),
            },
    {
        set_field(FieldKind::MaxCount, raw, existing)
    }

    /// Decode this field from the cursor's next line.
    pub fn get(cursor: &mut LineCursor) -> (r: Result<RelayMax, ConfigError>)
        requires
            old(cursor).wf(),
        ensures
            final(cursor).wf(),
            final(cursor).all_lines() == old(cursor).all_lines(),
            final(cursor).position() == if old(cursor).remaining().len() > 0 {
                old(cursor).position() + 1
            } else {
                old(cursor).position()
            },
            match r {
                Ok(v) => spec_parse_u64_field(old(cursor).remaining()) == Ok::<u64, ConfigError>(
                    v.0,
                ),
                Err(e) => spec_parse_u64_field(old(cursor).remaining()) == Err::<u64, ConfigError>(
                    e,
                ),
            },
    {
        let v = match next_value(cursor) {
            Ok(v) => v,
            Err(e) => {
                return Err(e);
            },
        };
        match parse_u64(v.as_str()) {
            Some(n) => Ok(RelayMax(n)),
            None => Err(ConfigError::FieldFormat),
        }
    }
}

impl MaxTime {
    /// Validate and write this field's line; see `set_field`.
    pub fn set(raw: &str, existing: Option<&String>) -> (r: Result<String, ConfigError>)
        requires
            existing matches Some(c) ==> spec_line_index(FieldKind::MaxDuration) < split_text(
                c@,
                '\n',
            ).len(),
        ensures
            match r {
                Ok(content) => spec_set(FieldKind::MaxDuration, raw@, opt_view(existing)) == Ok::<
                    Seq<char>,
                    ConfigError,
                >(content@),
                Err(e) => spec_set(FieldKind::MaxDuration, raw@, opt_view(existing)) == Err::<
                    Seq<char>,
                    ConfigError,
                >(e),
            },
    {
        set_field(FieldKind::MaxDuration, raw, existing)
    }

    /// Decode this field from the cursor's next line.
    pub fn get(cursor: &mut LineCursor) -> (r: Result<MaxTime, ConfigError>)
        requires
            old(cursor).wf(),
        ensures
            final(cursor).wf(),
            final(cursor).all_lines() == old(cursor).all_lines(),
            final(cursor).position() == if old(cursor).remaining().len() > 0 {
                old(cursor).position() + 1
            } else {
                old(cursor).position()
            },
            match r {
                Ok(v) => spec_parse_float_field(old(cursor).remaining()) == Ok::<
                    Seq<char>,
                    ConfigError,
                >(v.0@),
                Err(e) => spec_parse_float_field(old(cursor).remaining()) == Err::<
                    Seq<char>,
                    ConfigError,
                >(e),
            },
    {
        let v = match next_value(cursor) {
            Ok(v) => v,
            Err(e) => {
                return Err(e);
            },
        };
        if crate::codec::float_text_ok(v.as_str()) {
            Ok(MaxTime(v))
        } else {
            Err(ConfigError::FieldFormat)
        }
    }
}

impl GpioPin {
    /// Validate and write this field's line; see `set_field`.
    pub fn set(raw: &str, existing: Option<&String>) -> (r: Result<String, ConfigError>)
        requires
            existing matches Some(c) ==> spec_line_index(FieldKind::PinId) < split_text(
                c@,
                '\n',
            ).len(),
        ensures
            match r {
                Ok(content) => spec_set(FieldKind::PinId, raw@, opt_view(existing)) == Ok::<
                    Seq<char>,
                    ConfigError,
                >(content@),
                Err(e) => spec_set(FieldKind::PinId, raw@, opt_view(existing)) == Err::<
                    Seq<char>,
                    ConfigError,
                >(e),
            },
    {
        set_field(FieldKind::PinId, raw, existing)
    }

    /// Decode this field from the cursor's next line.
    pub fn get(cursor: &mut LineCursor) -> (r: Result<GpioPin, ConfigError>)
        requires
            old(cursor).wf(),
        ensures
            final(cursor).wf(),
            final(cursor).all_lines() == old(cursor).all_lines(),
            final(cursor).position() == if old(cursor).remaining().len() > 0 {
                old(cursor).position() + 1
            } else {
                old(cursor).position()
            },
            match r {
                Ok(v) => spec_parse_u8_field(old(cursor).remaining()) == Ok::<u8, ConfigError>(v.0),
                Err(e) => spec_parse_u8_field(old(cursor).remaining()) == Err::<u8, ConfigError>(e),
            },
    {
        let v = match next_value(cursor) {
            Ok(v) => v,
            Err(e) => {
                return Err(e);
            },
        };
        match parse_u8(v.as_str()) {
            Some(n) => Ok(GpioPin(n)),
            None => Err(ConfigError::FieldFormat),
        }
    }
}

impl Timezone {
    /// Validate and write this field's line; see `set_field`.
    pub fn set(raw: &str, existing: Option<&String>) -> (r: Result<String, ConfigError>)
        requires
            existing matches Some(c) ==> spec_line_index(FieldKind::Zone) < split_text(
                c@,
                '\n',
            ).len(),
        ensures
            match r {
                Ok(content) => spec_set(FieldKind::Zone, raw@, opt_view(existing)) == Ok::<
                    Seq<char>,
                    ConfigError,
                >(content@),
                Err(e) => spec_set(FieldKind::Zone, raw@, opt_view(existing)) == Err::<
                    Seq<char>,
                    ConfigError,
                >(e),
            },
    {
        set_field(FieldKind::Zone, raw, existing)
    }

    /// Decode this field from the cursor's next line.
    pub fn get(cursor: &mut LineCursor) -> (r: Result<Timezone, ConfigError>)
        requires
            old(cursor).wf(),
        ensures
            final(cursor).wf(),
            final(cursor).all_lines() == old(cursor).all_lines(),
            final(cursor).position() == if old(cursor).remaining().len() > 0 {
                old(cursor).position() + 1
            } else {
                old(cursor).position()
            },
            match r {
                Ok(v) => spec_parse_zone_field(old(cursor).remaining()) == Ok::<
                    Seq<char>,
                    ConfigError,
                >(v.0@),
                Err(e) => spec_parse_zone_field(old(cursor).remaining()) == Err::<
                    Seq<char>,
                    ConfigError,
                >(e),
            },
    {
        let v = match next_value(cursor) {
            Ok(v) => v,
            Err(e) => {
                return Err(e);
            },
        };
        if crate::codec::tz_lookup_ok(v.as_str()) {
            Ok(Timezone(v))
        } else {
            Err(ConfigError::FieldFormat)
        }
    }
}

impl Multiplier {
    /// Validate and write this field's line; see `set_field`.
    pub fn set(raw: &str, existing: Option<&String>) -> (r: Result<String, ConfigError>)
        requires
            existing matches Some(c) ==> spec_line_index(FieldKind::Factor) < split_text(
                c@,
                '\n',
            ).len(),
        ensures
            match r {
                Ok(content) => spec_set(FieldKind::Factor, raw@, opt_view(existing)) == Ok::<
                    Seq<char>,
                    ConfigError,
                >(content@),
                Err(e) => spec_set(FieldKind::Factor, raw@, opt_view(existing)) == Err::<
                    Seq<char>,
                    ConfigError,
                >(e),
            },
    {
        set_field(FieldKind::Factor, raw, existing)
    }

    /// Decode this field from the cursor's next line.
    pub fn get(cursor: &mut LineCursor) -> (r: Result<Multiplier, ConfigError>)
        requires
            old(cursor).wf(),
        ensures
            final(cursor).wf(),
            final(cursor).all_lines() == old(cursor).all_lines(),
            final(cursor).position() == if old(cursor).remaining().len() > 0 {
                old(cursor).position() + 1
            } else {
                old(cursor).position()
            },
            match r {
                Ok(v) => spec_parse_float_field(old(cursor).remaining()) == Ok::<
                    Seq<char>,
                    ConfigError,
                >(v.0@),
                Err(e) => spec_parse_float_field(old(cursor).remaining()) == Err::<
                    Seq<char>,
                    ConfigError,
                >(e),
            },
    {
        let v = match next_value(cursor) {
            Ok(v) => v,
            Err(e) => {
                return Err(e);
            },
        };
        if crate::codec::float_text_ok(v.as_str()) {
            Ok(Multiplier(v))
        } else {
            Err(ConfigError::FieldFormat)
        }
    }
}

/// All six decoded field values of one profile, assembled fresh on every
/// read and never cached. The duration, timezone and multiplier fields keep
/// their validated raw text; the caller converts where it needs the numeric
/// or zone value.
#[derive(Debug, PartialEq)]
pub struct FullConfig {
    pub relay_count: u64,
    pub relay_max: u64,
    pub max_time: String,
    pub gpio_pin: u8,
    pub timezone: String,
    pub multiplier: String,
}

/// What aggregating one record's content yields: empty content is malformed
/// outright; otherwise the six fields decode from the six lines in
/// canonical order, and the first failure is the record's failure.
pub open spec fn spec_aggregate(s: Seq<char>) -> Result<
    (u64, u64, Seq<char>, u8, Seq<char>, Seq<char>),
    ConfigError,
> {
    if s.len() == 0 {
        Err(ConfigError::MalformedRecord)
    } else {
        let lines = split_text(s, '\n');
        match spec_parse_u64_field(lines) {
            Err(e) => Err(e),
            Ok(rc) => match spec_parse_u64_field(lines.skip(1)) {
                Err(e) => Err(e),
                Ok(rm) => match spec_parse_float_field(lines.skip(2)) {
                    Err(e) => Err(e),
                    Ok(mt) => match spec_parse_u8_field(lines.skip(3)) {
                        Err(e) => Err(e),
                        Ok(gp) => match spec_parse_zone_field(lines.skip(4)) {
                            Err(e) => Err(e),
                            Ok(tz) => match spec_parse_float_field(lines.skip(5)) {
                                Err(e) => Err(e),
                                Ok(mu) => Ok((rc, rm, mt, gp, tz, mu)),
                            },
                        },
                    },
                },
            },
        }
    }
}

impl FullConfig {
    /// Assemble the full record from one config file's content, reading the
    /// six fields in canonical order over one shared cursor.
    pub fn new(content: &str) -> (r: Result<FullConfig, ConfigError>)
        ensures
            match r {
                Ok(c) => spec_aggregate(content@) == Ok::<_, ConfigError>(
                    (
                        c.relay_count,
                        c.relay_max,
                        c.max_time@,
                        c.gpio_pin,
                        c.timezone@,
                        c.multiplier@,
                    ),
                ),
                Err(e) => spec_aggregate(content@) == Err::<
                    (u64, u64, Seq<char>, u8, Seq<char>, Seq<char>),
                    ConfigError,
                >(e),
            },
    {
        if content.unicode_len() == 0 {
            return Err(ConfigError::MalformedRecord);
        }
        let ghost lines = split_text(content@, '\n');
        let mut cursor = LineCursor::new(content);
        proof {
            assert(cursor.remaining() =~~= lines);
        }
        let relay_count = match RelayCount::get(&mut cursor) {
            Ok(v) => v.0,
            Err(e) => {
                return Err(e);
            },
        };
        proof {
            assert(cursor.remaining() =~~= lines.skip(1));
        }
        let relay_max = match RelayMax::get(&mut cursor) {
            Ok(v) => v.0,
            Err(e) => {
                return Err(e);
            },
        };
        proof {
            assert(cursor.remaining() =~~= lines.skip(2));
        }
        let max_time = match MaxTime::get(&mut cursor) {
            Ok(v) => v.0,
            Err(e) => {
                return Err(e);
            },
        };
        proof {
            assert(cursor.remaining() =~~= lines.skip(3));
        }
        let gpio_pin = match GpioPin::get(&mut cursor) {
            Ok(v) => v.0,
            Err(e) => {
                return Err(e);
            },
        };
        proof {
            assert(cursor.remaining() =~~= lines.skip(4));
        }
        let timezone = match Timezone::get(&mut cursor) {
            Ok(v) => v.0,
            Err(e) => {
                return Err(e);
            },
        };
        proof {
            assert(cursor.remaining() =~~= lines.skip(5));
        }
        let multiplier = match Multiplier::get(&mut cursor) {
            Ok(v) => v.0,
            Err(e) => {
                return Err(e);
            },
        };
        Ok(FullConfig { relay_count, relay_max, max_time, gpio_pin, timezone, multiplier })
    }
}

proof fn lemma_name_clean(k: FieldKind)
    ensures
        crate::text::text_free_of(spec_field_name(k), ' '),
        crate::text::text_free_of(spec_field_name(k), '\n'),
{
    reveal_strlit("RelayCount");
    reveal_strlit("RelayMax");
    reveal_strlit("MaxTime");
    reveal_strlit("GpioPin");
    reveal_strlit("Timezone");
    reveal_strlit("Multiplier");
}

proof fn lemma_template_clean()
    ensures
        template_lines().len() == 6,
        forall|j: int|
            0 <= j < 6 ==> crate::text::text_free_of(#[trigger] template_lines()[j], '\n'),
{
    reveal_strlit("RelayCount:");
    reveal_strlit("RelayMax:");
    reveal_strlit("MaxTime:");
    reveal_strlit("GpioPin:");
    reveal_strlit("Timezone:");
    reveal_strlit("Multiplier:");
}

/// A written field line splits into exactly its key token and its value.
proof fn lemma_field_line_value(k: FieldKind, raw: Seq<char>)
    requires
        crate::codec::value_fits_line(raw),
    ensures
        spec_line_value(field_line(k, raw)) == Some(raw),
        crate::text::text_free_of(field_line(k, raw), '\n'),
{
    reveal_strlit(":");
    reveal_strlit(" ");
    lemma_name_clean(k);
    let name = spec_field_name(k);
    let line = field_line(k, raw);
    let head = name + ":"@;
    assert(" "@ =~= seq![' ']);
    assert(line =~= head + seq![' '] + raw);
    let i = head.len() as int;
    assert(line[i] == ' ');
    assert forall|j: int| 0 <= j < i implies line[j] != ' ' by {
        if j < name.len() {
            assert(line[j] == name[j]);
        } else {
            assert(line[j] == ':');
        }
    }
    crate::text::lemma_split_at_first(line, ' ', i);
    assert(line.take(i) =~= head);
    assert(line.skip(i + 1) =~= raw);
    crate::text::lemma_split_free(raw, ' ');
    assert(split_text(line, ' ') =~~= seq![head] + seq![raw]);
    assert(split_text(line, ' ').len() == 2);
    assert(split_text(line, ' ')[1] == raw);
    assert forall|j: int| 0 <= j < line.len() implies line[j] != '\n' by {
        if j < name.len() {
            assert(line[j] == name[j]);
        } else if j == name.len() {
            assert(line[j] == ':');
        } else if j == i {
        } else {
            assert(line[j] == raw[j - i - 1]);
        }
    }
}

/// Round trip of one field through the store: an accepted raw value,
/// written into a fresh or a well-formed six-line record, stands on its own
/// line, that line decodes back to exactly the raw value, and the other
/// five lines are untouched.
pub proof fn lemma_set_then_get(k: FieldKind, raw: Seq<char>, existing: Option<Seq<char>>)
    requires
        field_accepts(k, raw),
        existing matches Some(c) ==> split_text(c, '\n').len() == 6,
    ensures
        spec_set(k, raw, existing) is Ok,
        ({
            let base = match existing {
                None => template_lines(),
                Some(c) => split_text(c, '\n'),
            };
            let lines = split_text(spec_set(k, raw, existing)->Ok_0, '\n');
            &&& lines == base.update(spec_line_index(k), field_line(k, raw))
            &&& lines.len() == 6
            &&& spec_line_value(lines[spec_line_index(k)]) == Some(raw)
            &&& spec_next_value(lines.skip(spec_line_index(k))) == Ok::<Seq<char>, ConfigError>(
                raw,
            )
            &&& forall|j: int|
                0 <= j < 6 && j != spec_line_index(k) ==> lines[j] == base[j]
        }),
{
    crate::codec::lemma_field_value_fits(k, raw);
    lemma_field_line_value(k, raw);
    lemma_template_clean();
    let base = match existing {
        None => template_lines(),
        Some(c) => split_text(c, '\n'),
    };
    if existing is Some {
        crate::text::lemma_split_parts_free(existing->0, '\n');
    }
    let idx = spec_line_index(k);
    let updated = base.update(idx, field_line(k, raw));
    assert(base.len() == 6);
    assert forall|j: int| 0 <= j < updated.len() implies crate::text::text_free_of(
        #[trigger] updated[j],
        '\n',
    ) by {
        if j != idx {
            assert(updated[j] == base[j]);
        }
    }
    crate::text::lemma_split_of_join(updated, '\n');
    let lines = split_text(spec_set(k, raw, existing)->Ok_0, '\n');
    assert(lines == updated);
    assert(lines.skip(idx)[0] == lines[idx]);
}

/// Writes to distinct fields commute: setting two different fields in
/// either order, over a fresh or a well-formed six-line record, yields the
/// same record text. A full record built by setting all six fields is
/// therefore independent of the order of the setters.
pub proof fn lemma_set_order_independent(
    k1: FieldKind,
    k2: FieldKind,
    r1: Seq<char>,
    r2: Seq<char>,
    existing: Option<Seq<char>>,
)
    requires
        k1 != k2,
        field_accepts(k1, r1),
        field_accepts(k2, r2),
        existing matches Some(c) ==> split_text(c, '\n').len() == 6,
    ensures
        spec_set(k1, r1, existing) is Ok,
        spec_set(k2, r2, existing) is Ok,
        spec_set(k2, r2, Some(spec_set(k1, r1, existing)->Ok_0)) == spec_set(
            k1,
            r1,
            Some(spec_set(k2, r2, existing)->Ok_0),
        ),
{
    lemma_set_then_get(k1, r1, existing);
    lemma_set_then_get(k2, r2, existing);
    let base = match existing {
        None => template_lines(),
        Some(c) => split_text(c, '\n'),
    };
    let c1 = spec_set(k1, r1, existing)->Ok_0;
    let c2 = spec_set(k2, r2, existing)->Ok_0;
    lemma_set_then_get(k2, r2, Some(c1));
    lemma_set_then_get(k1, r1, Some(c2));
    let i1 = spec_line_index(k1);
    let i2 = spec_line_index(k2);
    assert(i1 != i2);
    let l1 = field_line(k1, r1);
    let l2 = field_line(k2, r2);
    assert(split_text(c1, '\n').update(i2, l2) =~~= split_text(c2, '\n').update(i1, l1)) by {
        assert(split_text(c1, '\n') == base.update(i1, l1));
        assert(split_text(c2, '\n') == base.update(i2, l2));
        assert(base.update(i1, l1).update(i2, l2) =~~= base.update(i2, l2).update(i1, l1));
    }
}

/// A record whose six lines carry one accepted value per field — what the
/// six setters reach in any order, by `lemma_set_order_independent` —
/// aggregates to exactly the six parsed values.
pub proof fn lemma_full_record_aggregates(
    v0: Seq<char>,
    v1: Seq<char>,
    v2: Seq<char>,
    v3: Seq<char>,
    v4: Seq<char>,
    v5: Seq<char>,
)
    requires
        field_accepts(FieldKind::Count, v0),
        field_accepts(FieldKind::MaxCount, v1),
        field_accepts(FieldKind::MaxDuration, v2),
        field_accepts(FieldKind::PinId, v3),
        field_accepts(FieldKind::Zone, v4),
        field_accepts(FieldKind::Factor, v5),
    ensures
        ({
            let lines = seq![
                field_line(FieldKind::Count, v0),
                field_line(FieldKind::MaxCount, v1),
                field_line(FieldKind::MaxDuration, v2),
                field_line(FieldKind::PinId, v3),
                field_line(FieldKind::Zone, v4),
                field_line(FieldKind::Factor, v5),
            ];
            spec_aggregate(join_text(lines, '\n')) == Ok::<_, ConfigError>(
                (
                    u64_text_value(v0) as u64,
                    u64_text_value(v1) as u64,
                    v2,
                    u64_text_value(v3) as u8,
                    v4,
                    v5,
                ),
            )
        }),
{
    let lines = seq![
        field_line(FieldKind::Count, v0),
        field_line(FieldKind::MaxCount, v1),
        field_line(FieldKind::MaxDuration, v2),
        field_line(FieldKind::PinId, v3),
        field_line(FieldKind::Zone, v4),
        field_line(FieldKind::Factor, v5),
    ];
    crate::codec::lemma_field_value_fits(FieldKind::Count, v0);
    crate::codec::lemma_field_value_fits(FieldKind::MaxCount, v1);
    crate::codec::lemma_field_value_fits(FieldKind::MaxDuration, v2);
    crate::codec::lemma_field_value_fits(FieldKind::PinId, v3);
    crate::codec::lemma_field_value_fits(FieldKind::Zone, v4);
    crate::codec::lemma_field_value_fits(FieldKind::Factor, v5);
    lemma_field_line_value(FieldKind::Count, v0);
    lemma_field_line_value(FieldKind::MaxCount, v1);
    lemma_field_line_value(FieldKind::MaxDuration, v2);
    lemma_field_line_value(FieldKind::PinId, v3);
    lemma_field_line_value(FieldKind::Zone, v4);
    lemma_field_line_value(FieldKind::Factor, v5);
    crate::text::lemma_split_of_join(lines, '\n');
    let content = join_text(lines, '\n');
    assert(content.len() > 0) by {
        if content.len() == 0 {
            assert(split_text(content, '\n') =~~= seq![Seq::<char>::empty()]);
        }
    }
    let split = split_text(content, '\n');
    assert(split == lines);
    assert(split.skip(1)[0] == lines[1]);
    assert(split.skip(2)[0] == lines[2]);
    assert(split.skip(3)[0] == lines[3]);
    assert(split.skip(4)[0] == lines[4]);
    assert(split.skip(5)[0] == lines[5]);
}

/// An empty config file always fails aggregation as a malformed record,
/// never as a partial or default-filled record.
pub proof fn lemma_empty_record_malformed(s: Seq<char>)
    requires
        s.len() == 0,
    ensures
        spec_aggregate(s) == Err::<(u64, u64, Seq<char>, u8, Seq<char>, Seq<char>), ConfigError>(
            ConfigError::MalformedRecord,
        ),
{
}

/// A record whose first line holds no single `Key value` pair — zero or
/// more than one token after the key — fails aggregation as a malformed
/// record.
pub proof fn lemma_malformed_line_rejected(s: Seq<char>)
    requires
        s.len() > 0,
        spec_line_value(split_text(s, '\n')[0]) is None,
    ensures
        spec_aggregate(s) == Err::<(u64, u64, Seq<char>, u8, Seq<char>, Seq<char>), ConfigError>(
            ConfigError::MalformedRecord,
        ),
{
    crate::text::lemma_split_len_pos(s, '\n');
}

/// How many lines a record's content splits into; a set on an existing
/// record asks that the field's index lie below this.
pub fn record_line_count(content: &str) -> (r: usize)
    ensures
        r == split_text(content@, '\n').len(),
{
    let lines = split_char(content, '\n');
    lines.len()
}

} // verus!
