//! Validation of a CPM hypervisor configuration (`cpm_f.yaml`).
//!
//! Checks the configuration against the ARINC 653 constraints of the fuel
//! CPM:
//!   - the YAML parses
//!   - every partition's `period` equals `major_frame`
//!   - the time windows fit inside the major frame and do not overlap
//!   - the `fuel_controller` partition is present and its duration lies
//!     between 1 ms and 5 ms
//!   - every sampling-channel destination has a source partition that is
//!     declared under `partitions`
//!   - `fuel_controller` reads the `iom_to_fuel` sensor channel and is the
//!     source of an outgoing channel

use vstd::prelude::*;
use crate::text::{decimal, duration_fits, duration_in_range, duration_ms, nat_option, parse_duration_ms, push_decimal, same_text};
use crate::yaml::{deref_option, parse_yaml, yaml_document, yaml_get, yaml_items, yaml_text, Yaml};

verus! {

// ------------------------------------------------------------------
// The report
// ------------------------------------------------------------------

/// The outcome of a validation: whether it passed, and its messages.
#[derive(Debug)]
pub struct ConfigReport {
    pub ok: bool,
    pub messages: Vec<String>,
}

/// A report as plain values.
pub ghost struct ReportView {
    pub ok: bool,
    pub messages: Seq<Seq<char>>,
}

/// The texts of a sequence of strings.
pub open spec fn strings_view(s: Seq<String>) -> Seq<Seq<char>> {
    s.map_values(|m: String| m@)
}

impl View for ConfigReport {
    type V = ReportView;

    open spec fn view(&self) -> ReportView {
        ReportView { ok: self.ok, messages: strings_view(self.messages@) }
    }
}

/// The closing message of a passing validation.
pub open spec fn looks_good_message() -> Seq<char> {
    "schedule, ports and windows look good."@
}

/// A report with the given verdict and messages; a passing one closes
/// with `looks_good_message`.
pub open spec fn finish(ok: bool, messages: Seq<Seq<char>>) -> ReportView {
    ReportView { ok, messages: if ok { messages.push(looks_good_message()) } else { messages } }
}

fn push_message(messages: &mut Vec<String>, m: String)
    ensures
        strings_view(final(messages)@) == strings_view(old(messages)@).push(m@),
{
    messages.push(m);
    assert(strings_view(messages@) =~= strings_view(old(messages)@).push(m@));
}

/// Closes a validation: the report has verdict `ok`, and a passing one
/// gets a closing message.
pub fn done(ok: bool, messages: Vec<String>) -> (r: ConfigReport)
    ensures
        r@ == finish(ok, strings_view(messages@)),
{
    let mut messages = messages;
    if ok {
        push_message(&mut messages, String::from_str("schedule, ports and windows look good."));
    }
    ConfigReport { ok, messages }
}

// ------------------------------------------------------------------
// Messages
// ------------------------------------------------------------------

pub open spec fn major_missing_message() -> Seq<char> {
    "major_frame: missing or not a string"@
}

pub open spec fn major_unparsed_message(s: Seq<char>) -> Seq<char> {
    "major_frame: cannot parse '"@ + s + "'"@
}

pub open spec fn partitions_missing_message() -> Seq<char> {
    "partitions: missing or not a list"@
}

pub open spec fn malformed_message(name: Seq<char>) -> Seq<char> {
    "partition '"@ + name + "': missing or malformed duration/offset/period"@
}

pub open spec fn period_message(name: Seq<char>, period: nat, major: nat) -> Seq<char> {
    "partition '"@ + name + "': period "@ + decimal(period) + "ms != major_frame "@ + decimal(
        major,
    ) + "ms"@
}

pub open spec fn window_message(name: Seq<char>, offset: nat, end: nat, major: nat) -> Seq<char> {
    "partition '"@ + name + "': window "@ + decimal(offset) + ".."@ + decimal(end)
        + "ms exceeds major frame "@ + decimal(major) + "ms"@
}

pub open spec fn overlap_message(a: WindowView, b: WindowView) -> Seq<char> {
    "windows overlap: '"@ + a.name + "' ("@ + decimal(a.offset) + ".."@ + decimal(a.end)
        + "ms) and '"@ + b.name + "' ("@ + decimal(b.offset) + ".."@ + decimal(b.end) + "ms)"@
}

pub open spec fn controller_missing_message() -> Seq<char> {
    "fuel_controller partition is missing — add an entry under partitions:"@
}

pub open spec fn controller_duration_message(d: nat) -> Seq<char> {
    "fuel_controller duration must be between 1ms and 5ms (got "@ + decimal(d) + "ms)"@
}

pub open spec fn channel_missing_message() -> Seq<char> {
    "channel: section missing"@
}

pub open spec fn not_reading_message() -> Seq<char> {
    "fuel_controller is not a destination of the iom_to_fuel sampling channel — it cannot read sensors"@
}

pub open spec fn not_writing_message() -> Seq<char> {
    "fuel_controller has no outgoing sampling channel — add one to send commands to cpm_f_gateway"@
}

pub open spec fn undeclared_source_message(port: Seq<char>, part: Seq<char>) -> Seq<char> {
    "sampling channel '"@ + port + "': source partition '"@ + part
        + "' is not declared under partitions:"@
}

pub open spec fn parse_error_message(e: Seq<char>) -> Seq<char> {
    "YAML parse error: "@ + e
}

fn quoted_text(prefix: &str, name: &str, suffix: &str) -> (m: String)
    ensures
        m@ == prefix@ + name@ + suffix@,
{
    let mut m = String::from_str(prefix);
    m.append(name);
    m.append(suffix);
    m
}

fn period_text(name: &str, period: u64, major: u64) -> (m: String)
    ensures
        m@ == period_message(name@, period as nat, major as nat),
{
    let mut m = quoted_text("partition '", name, "': period ");
    push_decimal(&mut m, period);
    m.append("ms != major_frame ");
    push_decimal(&mut m, major);
    m.append("ms");
    m
}

fn window_text(name: &str, offset: u64, end: u64, major: u64) -> (m: String)
    ensures
        m@ == window_message(name@, offset as nat, end as nat, major as nat),
{
    let mut m = quoted_text("partition '", name, "': window ");
    push_decimal(&mut m, offset);
    m.append("..");
    push_decimal(&mut m, end);
    m.append("ms exceeds major frame ");
    push_decimal(&mut m, major);
    m.append("ms");
    m
}

fn overlap_text(a: &Window, b: &Window) -> (m: String)
    ensures
        m@ == overlap_message(a@, b@),
{
    let mut m = quoted_text("windows overlap: '", a.name.as_str(), "' (");
    push_decimal(&mut m, a.offset);
    m.append("..");
    push_decimal(&mut m, a.end);
    m.append("ms) and '");
    m.append(b.name.as_str());
    m.append("' (");
    push_decimal(&mut m, b.offset);
    m.append("..");
    push_decimal(&mut m, b.end);
    m.append("ms)");
    m
}

fn controller_duration_text(d: u64) -> (m: String)
    ensures
        m@ == controller_duration_message(d as nat),
{
    let mut m = String::from_str("fuel_controller duration must be between 1ms and 5ms (got ");
    push_decimal(&mut m, d);
    m.append("ms)");
    m
}

// ------------------------------------------------------------------
// Partitions and their time windows
// ------------------------------------------------------------------

/// A partition's time window inside the major frame.
pub ghost struct WindowView {
    pub name: Seq<char>,
    pub offset: nat,
    pub end: nat,
}

/// A partition's time window, `offset..end` in milliseconds.
pub struct Window {
    pub name: String,
    pub offset: u64,
    pub end: u64,
}

impl View for Window {
    type V = WindowView;

    open spec fn view(&self) -> WindowView {
        WindowView { name: self.name@, offset: self.offset as nat, end: self.end as nat }
    }
}

pub open spec fn windows_view(s: Seq<Window>) -> Seq<WindowView> {
    s.map_values(|w: Window| w@)
}

pub open spec fn window_option_view(o: Option<Window>) -> Option<WindowView> {
    match o {
        Some(w) => Some(w@),
        None => None,
    }
}

/// The text of an optional node, when it is a string.
pub open spec fn opt_text(o: Option<Yaml>) -> Option<Seq<char>> {
    match o {
        Some(y) => yaml_text(y),
        None => None,
    }
}

/// The items of an optional node, when it is a sequence.
pub open spec fn opt_items(o: Option<Yaml>) -> Option<Seq<Yaml>> {
    match o {
        Some(y) => yaml_items(y),
        None => None,
    }
}

/// The text under `key`.
pub open spec fn field_text(p: Yaml, key: Seq<char>) -> Option<Seq<char>> {
    opt_text(yaml_get(p, key))
}

/// The duration under `key`, in milliseconds.
pub open spec fn field_ms(p: Yaml, key: Seq<char>) -> Option<nat> {
    match field_text(p, key) {
        Some(s) => duration_ms(s),
        None => None,
    }
}

/// A partition's name, `?` when it has none.
pub open spec fn entry_name(p: Yaml) -> Seq<char> {
    match field_text(p, "name"@) {
        Some(n) => n,
        None => "?"@,
    }
}

/// A partition's time window, when its duration, offset and period are
/// all well formed.
pub open spec fn entry_window(p: Yaml) -> Option<WindowView> {
    match (field_ms(p, "duration"@), field_ms(p, "offset"@), field_ms(p, "period"@)) {
        (Some(d), Some(o), Some(_)) => Some(WindowView { name: entry_name(p), offset: o, end: o + d }),
        _ => None,
    }
}

/// What one partition entry is found to break.
pub open spec fn entry_messages(p: Yaml, major: nat) -> Seq<Seq<char>> {
    let name = entry_name(p);
    match (field_ms(p, "duration"@), field_ms(p, "offset"@), field_ms(p, "period"@)) {
        (Some(d), Some(o), Some(per)) => (if per != major {
            seq![period_message(name, per, major)]
        } else {
            seq![]
        }) + (if o + d > major {
            seq![window_message(name, o, o + d, major)]
        } else {
            seq![]
        }),
        _ => seq![malformed_message(name)],
    }
}

/// What the partition entries are found to break, in order.
pub open spec fn partition_messages(ps: Seq<Yaml>, major: nat) -> Seq<Seq<char>>
    decreases ps.len(),
{
    if ps.len() == 0 {
        seq![]
    } else {
        partition_messages(ps.drop_last(), major) + entry_messages(ps.last(), major)
    }
}

/// `s` with `w` placed after every window that does not start later than
/// it: one step of a stable sort by offset.
pub open spec fn insert_by_offset(s: Seq<WindowView>, w: WindowView) -> Seq<WindowView>
    decreases s.len(),
{
    if s.len() == 0 {
        seq![w]
    } else if s.last().offset <= w.offset {
        s.push(w)
    } else {
        insert_by_offset(s.drop_last(), w).push(s.last())
    }
}

/// The windows of the well-formed entries, stably sorted by offset.
pub open spec fn sorted_windows(ps: Seq<Yaml>) -> Seq<WindowView>
    decreases ps.len(),
{
    if ps.len() == 0 {
        seq![]
    } else {
        match entry_window(ps.last()) {
            Some(w) => insert_by_offset(sorted_windows(ps.drop_last()), w),
            None => sorted_windows(ps.drop_last()),
        }
    }
}

/// One message for each pair of neighbouring windows where the first
/// ends after the second starts.
pub open spec fn overlap_messages(s: Seq<WindowView>) -> Seq<Seq<char>>
    decreases s.len(),
{
    if s.len() < 2 {
        seq![]
    } else {
        overlap_messages(s.drop_last()) + (if s[s.len() - 2].end > s.last().offset {
            seq![overlap_message(s[s.len() - 2], s.last())]
        } else {
            seq![]
        })
    }
}

/// The duration of an entry that is the well-formed `fuel_controller`.
pub open spec fn entry_controller_duration(p: Yaml) -> Option<nat> {
    match entry_window(p) {
        Some(w) => if w.name == "fuel_controller"@ {
            Some((w.end - w.offset) as nat)
        } else {
            None
        },
        None => None,
    }
}

/// The duration of the last well-formed `fuel_controller` entry.
pub open spec fn controller_duration(ps: Seq<Yaml>) -> Option<nat>
    decreases ps.len(),
{
    if ps.len() == 0 {
        None
    } else {
        match entry_controller_duration(ps.last()) {
            Some(d) => Some(d),
            None => controller_duration(ps.drop_last()),
        }
    }
}

pub open spec fn controller_messages(ps: Seq<Yaml>) -> Seq<Seq<char>> {
    match controller_duration(ps) {
        None => seq![controller_missing_message()],
        Some(d) => if 1 <= d <= 5 {
            seq![]
        } else {
            seq![controller_duration_message(d)]
        },
    }
}

// ------------------------------------------------------------------
// Sampling channels
// ------------------------------------------------------------------

/// The body of a channel entry: the value of a tagged one (`!Sampling`),
/// or the entry itself when it is a mapping.
pub open spec fn channel_body(ch: Yaml) -> Option<Yaml> {
    match ch {
        Yaml::Tagged(_, inner) => Some(*inner),
        Yaml::Mapping(_) => Some(ch),
        _ => None,
    }
}

pub open spec fn opt_get(o: Option<Yaml>, key: Seq<char>) -> Option<Yaml> {
    match o {
        Some(y) => yaml_get(y, key),
        None => None,
    }
}

/// `source.<key>` of a channel.
pub open spec fn source_field(m: Yaml, key: Seq<char>) -> Option<Seq<char>> {
    opt_text(opt_get(yaml_get(m, "source"@), key))
}

/// The destinations of a channel.
pub open spec fn destinations(m: Yaml) -> Seq<Yaml> {
    match opt_items(yaml_get(m, "destination"@)) {
        Some(d) => d,
        None => seq![],
    }
}

pub open spec fn dest_is_controller(d: Yaml) -> bool {
    field_text(d, "partition"@) == Some("fuel_controller"@)
}

/// The channel carries `iom_to_fuel` to `fuel_controller`.
pub open spec fn feeds_controller(m: Yaml) -> bool {
    &&& source_field(m, "port"@) == Some("iom_to_fuel"@)
    &&& exists|j: int|
        0 <= j < destinations(m).len() && #[trigger] dest_is_controller(destinations(m)[j])
}

pub open spec fn channel_feeds_controller(ch: Yaml) -> bool {
    match channel_body(ch) {
        Some(m) => feeds_controller(m),
        None => false,
    }
}

pub open spec fn channel_from_controller(ch: Yaml) -> bool {
    match channel_body(ch) {
        Some(m) => source_field(m, "partition"@) == Some("fuel_controller"@),
        None => false,
    }
}

/// Some channel lets `fuel_controller` read the sensors.
pub open spec fn reads_sensors(chs: Seq<Yaml>) -> bool {
    exists|i: int| 0 <= i < chs.len() && #[trigger] channel_feeds_controller(chs[i])
}

/// Some channel has `fuel_controller` as its source.
pub open spec fn writes_commands(chs: Seq<Yaml>) -> bool {
    exists|i: int| 0 <= i < chs.len() && #[trigger] channel_from_controller(chs[i])
}

/// Some entry of `ps` is named `name`.
pub open spec fn declared(ps: Seq<Yaml>, name: Seq<char>) -> bool {
    exists|i: int| 0 <= i < ps.len() && #[trigger] field_text(ps[i], "name"@) == Some(name)
}

/// The channel names its source partition, and that partition is one of
/// `ps`.
pub open spec fn source_declared(m: Yaml, ps: Seq<Yaml>) -> bool {
    match source_field(m, "partition"@) {
        Some(part) => declared(ps, part),
        None => false,
    }
}

/// A channel that delivers to some destination has a declared source
/// partition.
pub open spec fn channel_source_ok(ch: Yaml, ps: Seq<Yaml>) -> bool {
    match channel_body(ch) {
        Some(m) => destinations(m).len() == 0 || source_declared(m, ps),
        None => true,
    }
}

/// Every channel that delivers to some destination has a declared source
/// partition.
pub open spec fn every_source_declared(chs: Seq<Yaml>, ps: Seq<Yaml>) -> bool {
    forall|i: int| 0 <= i < chs.len() ==> #[trigger] channel_source_ok(chs[i], ps)
}

/// A text, `?` when there is none.
pub open spec fn or_unknown(o: Option<Seq<char>>) -> Seq<char> {
    match o {
        Some(t) => t,
        None => "?"@,
    }
}

/// What one channel is found to break about its source.
pub open spec fn source_messages(ch: Yaml, ps: Seq<Yaml>) -> Seq<Seq<char>> {
    if channel_source_ok(ch, ps) {
        seq![]
    } else {
        let m = channel_body(ch)->0;
        seq![
            undeclared_source_message(
                or_unknown(source_field(m, "port"@)),
                or_unknown(source_field(m, "partition"@)),
            ),
        ]
    }
}

/// What the channels are found to break about their sources, in order.
pub open spec fn channel_source_messages(chs: Seq<Yaml>, ps: Seq<Yaml>) -> Seq<Seq<char>>
    decreases chs.len(),
{
    if chs.len() == 0 {
        seq![]
    } else {
        channel_source_messages(chs.drop_last(), ps) + source_messages(chs.last(), ps)
    }
}

/// What the channels are found to break, given the partition entries `ps`.
pub open spec fn channel_messages(doc: Yaml, ps: Seq<Yaml>) -> Seq<Seq<char>> {
    match opt_items(yaml_get(doc, "channel"@)) {
        None => seq![channel_missing_message(), not_reading_message(), not_writing_message()],
        Some(chs) => channel_source_messages(chs, ps) + (if reads_sensors(chs) {
            seq![]
        } else {
            seq![not_reading_message()]
        }) + (if writes_commands(chs) {
            seq![]
        } else {
            seq![not_writing_message()]
        }),
    }
}

// ------------------------------------------------------------------
// The whole validation
// ------------------------------------------------------------------

/// The report on a parsed configuration document.
pub open spec fn validation_report(doc: Yaml) -> ReportView {
    match opt_text(yaml_get(doc, "major_frame"@)) {
        None => finish(false, seq![major_missing_message()]),
        Some(s) => match duration_ms(s) {
            None => finish(false, seq![major_unparsed_message(s)]),
            Some(major) => match opt_items(yaml_get(doc, "partitions"@)) {
                None => finish(false, seq![partitions_missing_message()]),
                Some(ps) => {
                    let m = partition_messages(ps, major) + overlap_messages(sorted_windows(ps))
                        + controller_messages(ps) + channel_messages(doc, ps);
                    finish(m.len() == 0, m)
                },
            },
        },
    }
}

/// An optional number fits in 64 bits.
pub open spec fn fits(o: Option<nat>) -> bool {
    o matches Some(v) ==> v <= u64::MAX
}

/// The durations of an entry and the end of its window fit in 64 bits.
pub open spec fn entry_in_range(p: Yaml) -> bool {
    &&& fits(field_ms(p, "duration"@))
    &&& fits(field_ms(p, "offset"@))
    &&& fits(field_ms(p, "period"@))
    &&& (entry_window(p) matches Some(w) ==> w.end <= u64::MAX)
}

/// Every entry's numbers fit in 64 bits.
pub open spec fn all_entries_in_range(ps: Seq<Yaml>) -> bool {
    forall|i: int| 0 <= i < ps.len() ==> entry_in_range(#[trigger] ps[i])
}

/// Every number the validation of `doc` computes fits in 64 bits.
pub open spec fn validation_in_range(doc: Yaml) -> bool {
    match opt_text(yaml_get(doc, "major_frame"@)) {
        None => true,
        Some(s) => duration_fits(s) && match duration_ms(s) {
            None => true,
            Some(_) => match opt_items(yaml_get(doc, "partitions"@)) {
                None => true,
                Some(ps) => all_entries_in_range(ps),
            },
        },
    }
}

// ------------------------------------------------------------------
// Checking the entries
// ------------------------------------------------------------------

fn field_duration(p: &Yaml, key: &str) -> (r: Option<u64>)
    requires
        fits(field_ms(*p, key@)),
    ensures
        nat_option(r) == field_ms(*p, key@),
{
    match p.get(key) {
        Some(v) => match v.as_str() {
            Some(s) => parse_duration_ms(s),
            None => None,
        },
        None => None,
    }
}

fn field_fits(p: &Yaml, key: &str) -> (r: bool)
    ensures
        r == fits(field_ms(*p, key@)),
{
    match p.get(key) {
        Some(v) => match v.as_str() {
            Some(s) => duration_in_range(s),
            None => true,
        },
        None => true,
    }
}

fn entry_name_of(p: &Yaml) -> (n: &str)
    ensures
        n@ == entry_name(*p),
{
    match p.get("name") {
        Some(v) => match v.as_str() {
            Some(s) => s,
            None => "?",
        },
        None => "?",
    }
}

/// Checks one partition entry: pushes what it breaks and gives its time
/// window when it is well formed.
fn check_entry(p: &Yaml, major: u64, messages: &mut Vec<String>) -> (w: Option<Window>)
    requires
        entry_in_range(*p),
    ensures
        strings_view(final(messages)@) == strings_view(old(messages)@) + entry_messages(
            *p,
            major as nat,
        ),
        window_option_view(w) == entry_window(*p),
{
    let name = entry_name_of(p);
    let duration = field_duration(p, "duration");
    let offset = field_duration(p, "offset");
    let period = field_duration(p, "period");
    let ghost before = strings_view(messages@);
    match (duration, offset, period) {
        (Some(d), Some(o), Some(per)) => {
            if per != major {
                push_message(messages, period_text(name, per, major));
            }
            if o + d > major {
                push_message(messages, window_text(name, o, o + d, major));
            }
            assert(strings_view(messages@) =~= before + entry_messages(*p, major as nat));
            Some(Window { name: name.to_owned(), offset: o, end: o + d })
        },
        _ => {
            push_message(
                messages,
                quoted_text("partition '", name, "': missing or malformed duration/offset/period"),
            );
            assert(strings_view(messages@) =~= before + entry_messages(*p, major as nat));
            None
        },
    }
}

/// Places `w` after every window of `sorted` that does not start later.
fn insert_window(sorted: &mut Vec<Window>, w: Window)
    ensures
        windows_view(final(sorted)@) == insert_by_offset(windows_view(old(sorted)@), w@),
{
    let ghost s = windows_view(sorted@);
    let mut pos = sorted.len();
    assert(s.take(pos as int) =~= s);
    assert(s.skip(pos as int) =~= Seq::<WindowView>::empty());
    while pos > 0 && sorted[pos - 1].offset > w.offset
        invariant
            pos <= sorted@.len(),
            s == windows_view(sorted@),
            insert_by_offset(s, w@) == insert_by_offset(s.take(pos as int), w@) + s.skip(
                pos as int,
            ),
        decreases pos,
    {
        let ghost t = s.take(pos as int);
        assert(t.last() == s[pos - 1]);
        assert(t.drop_last() =~= s.take(pos - 1));
        assert(insert_by_offset(t, w@) == insert_by_offset(s.take(pos - 1), w@).push(s[pos - 1]));
        assert(insert_by_offset(s.take(pos - 1), w@).push(s[pos - 1]) + s.skip(pos as int)
            =~= insert_by_offset(s.take(pos - 1), w@) + s.skip(pos - 1));
        pos = pos - 1;
    }
    let ghost t = s.take(pos as int);
    assert(insert_by_offset(t, w@) =~= t.push(w@)) by {
        if t.len() > 0 {
            assert(t.last() == s[pos - 1]);
        }
    }
    sorted.insert(pos, w);
    assert(windows_view(sorted@) =~= t.push(w@) + s.skip(pos as int));
}

/// Pushes one message for each pair of neighbouring windows that overlap.
fn check_overlaps(sorted: &Vec<Window>, messages: &mut Vec<String>)
    ensures
        strings_view(final(messages)@) == strings_view(old(messages)@) + overlap_messages(
            windows_view(sorted@),
        ),
{
    let ghost s = windows_view(sorted@);
    let ghost base = strings_view(messages@);
    if sorted.len() == 0 {
        assert(base + overlap_messages(s) =~= base);
        return;
    }
    let mut k: usize = 1;
    assert(base + overlap_messages(s.take(1)) =~= base);
    while k < sorted.len()
        invariant
            1 <= k <= sorted@.len(),
            s == windows_view(sorted@),
            strings_view(messages@) == base + overlap_messages(s.take(k as int)),
        decreases sorted@.len() - k,
    {
        let ghost t = s.take(k + 1);
        assert(t.drop_last() =~= s.take(k as int));
        assert(t[t.len() - 2] == sorted[k - 1]@);
        assert(t.last() == sorted[k as int]@);
        if sorted[k - 1].end > sorted[k].offset {
            push_message(messages, overlap_text(&sorted[k - 1], &sorted[k]));
        }
        assert(strings_view(messages@) =~= base + overlap_messages(t));
        k = k + 1;
    }
    assert(s.take(k as int) =~= s);
}

// ------------------------------------------------------------------
// Checking the channels
// ------------------------------------------------------------------

fn text_field_is(p: &Yaml, key: &str, expected: &str) -> (r: bool)
    ensures
        r == (field_text(*p, key@) == Some(expected@)),
{
    match p.get(key) {
        Some(v) => match v.as_str() {
            Some(t) => same_text(t, expected),
            None => false,
        },
        None => false,
    }
}

fn source_field_is(m: &Yaml, key: &str, expected: &str) -> (r: bool)
    ensures
        r == (source_field(*m, key@) == Some(expected@)),
{
    match m.get("source") {
        Some(src) => text_field_is(src, key, expected),
        None => false,
    }
}

fn channel_body_of(ch: &Yaml) -> (r: Option<&Yaml>)
    ensures
        deref_option(r) == channel_body(*ch),
{
    match ch {
        Yaml::Tagged(_, inner) => Some(&**inner),
        Yaml::Mapping(_) => Some(ch),
        _ => None,
    }
}

fn feeds_controller_of(m: &Yaml) -> (r: bool)
    ensures
        r == feeds_controller(*m),
{
    let from_sensors = source_field_is(m, "port", "iom_to_fuel");
    let ghost ds = destinations(*m);
    let dests: &[Yaml] = match m.get("destination") {
        Some(v) => match v.as_sequence() {
            Some(d) => d.as_slice(),
            None => &[],
        },
        None => &[],
    };
    assert(dests@ =~= ds);
    let mut found = false;
    let mut j: usize = 0;
    while j < dests.len()
        invariant
            j <= dests@.len(),
            dests@ == ds,
            found == exists|k: int| 0 <= k < j && #[trigger] dest_is_controller(ds[k]),
        decreases dests@.len() - j,
    {
        let hit = text_field_is(&dests[j], "partition", "fuel_controller");
        assert(hit == dest_is_controller(ds[j as int]));
        if hit {
            found = true;
        }
        assert(found == exists|k: int| 0 <= k < j + 1 && #[trigger] dest_is_controller(ds[k])) by {
            if hit {
                assert(dest_is_controller(ds[j as int]));
            }
        }
        j = j + 1;
    }
    from_sensors && found
}

/// Whether some channel lets `fuel_controller` read the sensors, and
/// whether some channel has it as its source.
fn channel_checks(chs: &Vec<Yaml>) -> (r: (bool, bool))
    ensures
        r.0 == reads_sensors(chs@),
        r.1 == writes_commands(chs@),
{
    let mut reads = false;
    let mut writes = false;
    let mut i: usize = 0;
    while i < chs.len()
        invariant
            i <= chs@.len(),
            reads == exists|k: int| 0 <= k < i && #[trigger] channel_feeds_controller(chs@[k]),
            writes == exists|k: int| 0 <= k < i && #[trigger] channel_from_controller(chs@[k]),
        decreases chs@.len() - i,
    {
        let mut feeds = false;
        let mut from = false;
        if let Some(m) = channel_body_of(&chs[i]) {
            feeds = feeds_controller_of(m);
            from = source_field_is(m, "partition", "fuel_controller");
        }
        assert(feeds == channel_feeds_controller(chs@[i as int]));
        assert(from == channel_from_controller(chs@[i as int]));
        if feeds {
            reads = true;
        }
        if from {
            writes = true;
        }
        assert(reads == exists|k: int| 0 <= k < i + 1 && #[trigger] channel_feeds_controller(chs@[k])) by {
            if feeds {
                assert(channel_feeds_controller(chs@[i as int]));
            }
        }
        assert(writes == exists|k: int| 0 <= k < i + 1 && #[trigger] channel_from_controller(chs@[k])) by {
            if from {
                assert(channel_from_controller(chs@[i as int]));
            }
        }
        i = i + 1;
    }
    (reads, writes)
}

/// Whether some entry of `parts` is named `name`.
fn declared_in(parts: &Vec<Yaml>, name: &str) -> (r: bool)
    ensures
        r == declared(parts@, name@),
{
    let mut i: usize = 0;
    while i < parts.len()
        invariant
            i <= parts@.len(),
            forall|k: int| 0 <= k < i ==> #[trigger] field_text(parts@[k], "name"@) != Some(name@),
        decreases parts@.len() - i,
    {
        if text_field_is(&parts[i], "name", name) {
            return true;
        }
        i = i + 1;
    }
    false
}

/// `source.<key>` of a channel, when it is a string.
fn source_text<'a>(m: &'a Yaml, key: &str) -> (r: Option<&'a str>)
    ensures
        match r {
            Some(t) => source_field(*m, key@) == Some(t@),
            None => source_field(*m, key@) is None,
        },
{
    match m.get("source") {
        Some(src) => match src.get(key) {
            Some(v) => v.as_str(),
            None => None,
        },
        None => None,
    }
}

/// The number of destinations of a channel.
fn destination_count(m: &Yaml) -> (n: usize)
    ensures
        n == destinations(*m).len(),
{
    match m.get("destination") {
        Some(v) => match v.as_sequence() {
            Some(d) => d.len(),
            None => 0,
        },
        None => 0,
    }
}

fn undeclared_source_text(port: &str, part: &str) -> (m: String)
    ensures
        m@ == undeclared_source_message(port@, part@),
{
    let mut m = quoted_text("sampling channel '", port, "': source partition '");
    m.append(part);
    m.append("' is not declared under partitions:");
    assert(m@ =~= undeclared_source_message(port@, part@));
    m
}

/// Pushes one message for each channel that delivers to some destination
/// but whose source partition is missing or not declared in `parts`.
fn check_sources(chs: &Vec<Yaml>, parts: &Vec<Yaml>, messages: &mut Vec<String>)
    ensures
        strings_view(final(messages)@) == strings_view(old(messages)@) + channel_source_messages(
            chs@,
            parts@,
        ),
{
    let ghost base = strings_view(messages@);
    let mut i: usize = 0;
    assert(base + channel_source_messages(chs@.take(0), parts@) =~= base);
    while i < chs.len()
        invariant
            i <= chs@.len(),
            strings_view(messages@) == base + channel_source_messages(chs@.take(i as int), parts@),
        decreases chs@.len() - i,
    {
        let ghost t = chs@.take(i + 1);
        assert(t.drop_last() =~= chs@.take(i as int));
        assert(t.last() == chs@[i as int]);
        if let Some(m) = channel_body_of(&chs[i]) {
            if destination_count(m) > 0 {
                let part = source_text(m, "partition");
                let declared_source = match part {
                    Some(p) => declared_in(parts, p),
                    None => false,
                };
                if !declared_source {
                    let port_name = match source_text(m, "port") {
                        Some(t) => t,
                        None => "?",
                    };
                    let part_name = match part {
                        Some(t) => t,
                        None => "?",
                    };
                    push_message(messages, undeclared_source_text(port_name, part_name));
                }
            }
        }
        assert(strings_view(messages@) =~= base + channel_source_messages(t, parts@));
        i = i + 1;
    }
    assert(chs@.take(i as int) =~= chs@);
}

fn check_channels(doc: &Yaml, parts: &Vec<Yaml>, messages: &mut Vec<String>)
    ensures
        strings_view(final(messages)@) == strings_view(old(messages)@) + channel_messages(
            *doc,
            parts@,
        ),
{
    let ghost base = strings_view(messages@);
    let (reads, writes) = match doc.get("channel") {
        Some(v) => match v.as_sequence() {
            Some(chs) => {
                check_sources(chs, parts, messages);
                channel_checks(chs)
            },
            None => {
                push_message(messages, String::from_str("channel: section missing"));
                (false, false)
            },
        },
        None => {
            push_message(messages, String::from_str("channel: section missing"));
            (false, false)
        },
    };
    if !reads {
        push_message(
            messages,
            String::from_str(
                "fuel_controller is not a destination of the iom_to_fuel sampling channel — it cannot read sensors",
            ),
        );
    }
    if !writes {
        push_message(
            messages,
            String::from_str(
                "fuel_controller has no outgoing sampling channel — add one to send commands to cpm_f_gateway",
            ),
        );
    }
    assert(strings_view(messages@) =~= base + channel_messages(*doc, parts@));
}

// ------------------------------------------------------------------
// The whole validation
// ------------------------------------------------------------------

fn entry_fits(p: &Yaml) -> (r: bool)
    ensures
        r == entry_in_range(*p),
{
    if !field_fits(p, "duration") || !field_fits(p, "offset") || !field_fits(p, "period") {
        return false;
    }
    match (field_duration(p, "duration"), field_duration(p, "offset"), field_duration(p, "period")) {
        (Some(d), Some(o), Some(_)) => o.checked_add(d).is_some(),
        _ => true,
    }
}

/// Whether every number that the validation of `doc` computes fits in 64
/// bits.
pub fn document_in_range(doc: &Yaml) -> (r: bool)
    ensures
        r == validation_in_range(*doc),
{
    let major_text = match doc.get("major_frame") {
        Some(v) => v.as_str(),
        None => None,
    };
    let s = match major_text {
        Some(s) => s,
        None => return true,
    };
    if !duration_in_range(s) {
        return false;
    }
    if parse_duration_ms(s).is_none() {
        return true;
    }
    let parts = match doc.get("partitions") {
        Some(v) => match v.as_sequence() {
            Some(ps) => ps,
            None => return true,
        },
        None => return true,
    };
    assert(opt_text(yaml_get(*doc, "major_frame"@)) == Some(s@));
    assert(duration_ms(s@) is Some);
    assert(opt_items(yaml_get(*doc, "partitions"@)) == Some(parts@));
    let mut i: usize = 0;
    while i < parts.len()
        invariant
            i <= parts@.len(),
            validation_in_range(*doc) == all_entries_in_range(parts@),
            forall|k: int| 0 <= k < i ==> entry_in_range(#[trigger] parts@[k]),
        decreases parts@.len() - i,
    {
        if !entry_fits(&parts[i]) {
            assert(!entry_in_range(parts@[i as int]));
            return false;
        }
        i = i + 1;
    }
    true
}

/// Validates a parsed configuration document.
pub fn validate_document(doc: &Yaml) -> (r: ConfigReport)
    requires
        validation_in_range(*doc),
    ensures
        r@ == validation_report(*doc),
{
    let mut messages: Vec<String> = Vec::new();
    assert(strings_view(messages@) =~= Seq::<Seq<char>>::empty());
    let major_text = match doc.get("major_frame") {
        Some(v) => v.as_str(),
        None => None,
    };
    let s = match major_text {
        Some(s) => s,
        None => {
            push_message(&mut messages, String::from_str("major_frame: missing or not a string"));
            assert(strings_view(messages@) =~= seq![major_missing_message()]);
            return done(false, messages);
        },
    };
    let major = match parse_duration_ms(s) {
        Some(v) => v,
        None => {
            push_message(&mut messages, quoted_text("major_frame: cannot parse '", s, "'"));
            assert(strings_view(messages@) =~= seq![major_unparsed_message(s@)]);
            return done(false, messages);
        },
    };
    let parts = match doc.get("partitions") {
        Some(v) => v.as_sequence(),
        None => None,
    };
    let parts = match parts {
        Some(ps) => ps,
        None => {
            push_message(&mut messages, String::from_str("partitions: missing or not a list"));
            assert(strings_view(messages@) =~= seq![partitions_missing_message()]);
            return done(false, messages);
        },
    };
    let ghost ps = parts@;
    let fc = String::from_str("fuel_controller");
    let mut sorted: Vec<Window> = Vec::new();
    let mut controller: Option<u64> = None;
    let mut i: usize = 0;
    assert(strings_view(messages@) =~= Seq::<Seq<char>>::empty());
    assert(ps.take(0) =~= Seq::<Yaml>::empty());
    while i < parts.len()
        invariant
            i <= ps.len(),
            ps == parts@,
            all_entries_in_range(ps),
            fc@ == "fuel_controller"@,
            strings_view(messages@) == partition_messages(ps.take(i as int), major as nat),
            windows_view(sorted@) == sorted_windows(ps.take(i as int)),
            nat_option(controller) == controller_duration(ps.take(i as int)),
        decreases ps.len() - i,
    {
        let ghost t = ps.take(i + 1);
        assert(t.drop_last() =~= ps.take(i as int));
        assert(t.last() == ps[i as int]);
        let w = check_entry(&parts[i], major, &mut messages);
        match w {
            Some(w) => {
                if w.name == fc {
                    controller = Some(w.end - w.offset);
                }
                insert_window(&mut sorted, w);
            },
            None => {},
        }
        i = i + 1;
    }
    assert(ps.take(i as int) =~= ps);
    check_overlaps(&sorted, &mut messages);
    match controller {
        None => {
            push_message(
                &mut messages,
                String::from_str(
                    "fuel_controller partition is missing — add an entry under partitions:",
                ),
            );
        },
        Some(d) => {
            if !(1 <= d && d <= 5) {
                push_message(&mut messages, controller_duration_text(d));
            }
        },
    }
    let ghost before_channels = strings_view(messages@);
    assert(before_channels =~= partition_messages(ps, major as nat) + overlap_messages(
        sorted_windows(ps),
    ) + controller_messages(ps));
    check_channels(doc, parts, &mut messages);
    let ok = messages.len() == 0;
    done(ok, messages)
}

/// Validates the text of a configuration: reads it as YAML, then checks
/// the document. `None` where a number that the check computes would not
/// fit in 64 bits.
pub fn validate_text(text: &str) -> (r: Option<ConfigReport>)
    ensures
        match yaml_document(text@) {
            Ok(doc) => if validation_in_range(doc) {
                r matches Some(report) && report@ == validation_report(doc)
            } else {
                r is None
            },
            Err(e) => r matches Some(report) && report@ == finish(
                false,
                seq![parse_error_message(e)],
            ),
        },
{
    match parse_yaml(text) {
        Ok(doc) => {
            if document_in_range(&doc) {
                Some(validate_document(&doc))
            } else {
                None
            }
        },
        Err(e) => {
            let mut messages: Vec<String> = Vec::new();
            let mut m = String::from_str("YAML parse error: ");
            m.append(e.as_str());
            push_message(&mut messages, m);
            assert(strings_view(messages@) =~= seq![parse_error_message(e@)]);
            Some(done(false, messages))
        },
    }
}

// ------------------------------------------------------------------
// What a passing validation means
// ------------------------------------------------------------------

/// Two windows, taken as half-open intervals, share no instant.
pub open spec fn disjoint(a: WindowView, b: WindowView) -> bool {
    a.end <= b.offset || b.end <= a.offset
}

/// No two windows of `s` share an instant.
pub open spec fn pairwise_disjoint(s: Seq<WindowView>) -> bool {
    forall|i: int, j: int| 0 <= i < j < s.len() ==> disjoint(#[trigger] s[i], #[trigger] s[j])
}

/// The windows of `s` are in order of offset.
pub open spec fn by_offset(s: Seq<WindowView>) -> bool {
    forall|i: int, j: int| 0 <= i < j < s.len() ==> (#[trigger] s[i]).offset <= (#[trigger] s[j]).offset
}

/// Every entry of `ps` has a well-formed window.
pub open spec fn all_well_formed(ps: Seq<Yaml>) -> bool {
    forall|i: int| 0 <= i < ps.len() ==> (#[trigger] entry_window(ps[i])) is Some
}

/// The window of an entry that has one.
pub open spec fn window_of(p: Yaml) -> WindowView {
    entry_window(p)->0
}

/// No two entries' windows share an instant.
pub open spec fn windows_disjoint(ps: Seq<Yaml>) -> bool {
    forall|i: int, j: int|
        0 <= i < j < ps.len() ==> disjoint(window_of(#[trigger] ps[i]), window_of(#[trigger] ps[j]))
}

/// `x` is the window of some entry of `ps`.
pub open spec fn is_entry_window(ps: Seq<Yaml>, x: WindowView) -> bool {
    exists|i: int| 0 <= i < ps.len() && x == window_of(#[trigger] ps[i])
}

proof fn lemma_pairwise_push(s: Seq<WindowView>, x: WindowView)
    ensures
        pairwise_disjoint(s.push(x)) <==> (pairwise_disjoint(s) && forall|k: int|
            0 <= k < s.len() ==> disjoint(#[trigger] s[k], x)),
{
    let t = s.push(x);
    if pairwise_disjoint(t) {
        assert forall|i: int, j: int| 0 <= i < j < s.len() implies disjoint(
            #[trigger] s[i],
            #[trigger] s[j],
        ) by {
            assert(t[i] == s[i] && t[j] == s[j]);
        }
        assert forall|k: int| 0 <= k < s.len() implies disjoint(#[trigger] s[k], x) by {
            assert(t[k] == s[k] && t[s.len() as int] == x);
        }
    }
    if pairwise_disjoint(s) && forall|k: int| 0 <= k < s.len() ==> disjoint(#[trigger] s[k], x) {
        assert forall|i: int, j: int| 0 <= i < j < t.len() implies disjoint(
            #[trigger] t[i],
            #[trigger] t[j],
        ) by {
            assert(t[i] == s[i]);
            if j < s.len() {
                assert(t[j] == s[j]);
            } else {
                assert(t[j] == x);
            }
        }
    }
}

proof fn lemma_insert_contents(s: Seq<WindowView>, w: WindowView)
    ensures
        insert_by_offset(s, w).len() == s.len() + 1,
        forall|x: WindowView| #[trigger]
            insert_by_offset(s, w).contains(x) <==> (s.contains(x) || x == w),
    decreases s.len(),
{
    if s.len() == 0 {
        assert(insert_by_offset(s, w) =~= seq![w]);
        assert(seq![w][0] == w);
    } else if s.last().offset <= w.offset {
        let t = s.push(w);
        assert forall|x: WindowView| #[trigger] t.contains(x) <==> (s.contains(x) || x == w) by {
            if t.contains(x) {
                let k = choose|k: int| 0 <= k < t.len() && t[k] == x;
                if k < s.len() {
                    assert(s[k] == x);
                }
            }
            if s.contains(x) {
                let k = choose|k: int| 0 <= k < s.len() && s[k] == x;
                assert(t[k] == x);
            }
            if x == w {
                assert(t[s.len() as int] == w);
            }
        }
    } else {
        let init = s.drop_last();
        let l = s.last();
        lemma_insert_contents(init, w);
        let u = insert_by_offset(init, w);
        let t = u.push(l);
        assert(insert_by_offset(s, w) == t);
        assert forall|x: WindowView| #[trigger] t.contains(x) <==> (s.contains(x) || x == w) by {
            if t.contains(x) {
                let k = choose|k: int| 0 <= k < t.len() && t[k] == x;
                if k < u.len() {
                    assert(u[k] == x);
                    assert(u.contains(x));
                    if init.contains(x) {
                        let m = choose|m: int| 0 <= m < init.len() && init[m] == x;
                        assert(s[m] == x);
                    }
                } else {
                    assert(s[s.len() - 1] == x);
                }
            }
            if s.contains(x) {
                let k = choose|k: int| 0 <= k < s.len() && s[k] == x;
                if k < init.len() {
                    assert(init[k] == x);
                    assert(init.contains(x));
                    assert(u.contains(x));
                    let m = choose|m: int| 0 <= m < u.len() && u[m] == x;
                    assert(t[m] == x);
                } else {
                    assert(t[u.len() as int] == x);
                }
            }
            if x == w {
                assert(u.contains(w));
                let m = choose|m: int| 0 <= m < u.len() && u[m] == w;
                assert(t[m] == w);
            }
        }
    }
}

proof fn lemma_insert_pairwise(s: Seq<WindowView>, w: WindowView)
    ensures
        pairwise_disjoint(insert_by_offset(s, w)) <==> (pairwise_disjoint(s) && forall|k: int|
            0 <= k < s.len() ==> disjoint(#[trigger] s[k], w)),
    decreases s.len(),
{
    if s.len() == 0 {
        assert(insert_by_offset(s, w) =~= seq![w]);
    } else if s.last().offset <= w.offset {
        lemma_pairwise_push(s, w);
    } else {
        let init = s.drop_last();
        let l = s.last();
        lemma_insert_pairwise(init, w);
        lemma_insert_contents(init, w);
        let u = insert_by_offset(init, w);
        lemma_pairwise_push(u, l);
        assert(init.push(l) =~= s);
        lemma_pairwise_push(init, l);
        let lhs = forall|k: int| 0 <= k < u.len() ==> disjoint(#[trigger] u[k], l);
        let rhs = (forall|k: int| 0 <= k < init.len() ==> disjoint(#[trigger] init[k], l))
            && disjoint(w, l);
        assert(lhs <==> rhs) by {
            if lhs {
                assert forall|k: int| 0 <= k < init.len() implies disjoint(#[trigger] init[k], l) by {
                    assert(init.contains(init[k]));
                    assert(u.contains(init[k]));
                    let m = choose|m: int| 0 <= m < u.len() && u[m] == init[k];
                    assert(disjoint(u[m], l));
                }
                assert(u.contains(w));
                let m = choose|m: int| 0 <= m < u.len() && u[m] == w;
                assert(disjoint(u[m], l));
            }
            if rhs {
                assert forall|k: int| 0 <= k < u.len() implies disjoint(#[trigger] u[k], l) by {
                    assert(u.contains(u[k]));
                    if u[k] != w {
                        assert(init.contains(u[k]));
                        let m = choose|m: int| 0 <= m < init.len() && init[m] == u[k];
                        assert(disjoint(init[m], l));
                    }
                }
            }
        }
        let all_w_s = forall|k: int| 0 <= k < s.len() ==> disjoint(#[trigger] s[k], w);
        let all_w_init = forall|k: int| 0 <= k < init.len() ==> disjoint(#[trigger] init[k], w);
        assert(all_w_s <==> (all_w_init && disjoint(l, w))) by {
            if all_w_s {
                assert forall|k: int| 0 <= k < init.len() implies disjoint(#[trigger] init[k], w) by {
                    assert(s[k] == init[k]);
                }
                assert(s[s.len() - 1] == l);
            }
            if all_w_init && disjoint(l, w) {
                assert forall|k: int| 0 <= k < s.len() implies disjoint(#[trigger] s[k], w) by {
                    if k < init.len() {
                        assert(s[k] == init[k]);
                    }
                }
            }
        }
    }
}

proof fn lemma_insert_by_offset_sorted(s: Seq<WindowView>, w: WindowView)
    requires
        by_offset(s),
    ensures
        by_offset(insert_by_offset(s, w)),
    decreases s.len(),
{
    if s.len() == 0 {
        assert(insert_by_offset(s, w) =~= seq![w]);
    } else if s.last().offset <= w.offset {
        let t = s.push(w);
        assert forall|i: int, j: int| 0 <= i < j < t.len() implies (#[trigger] t[i]).offset <= (
        #[trigger] t[j]).offset by {
            assert(t[i] == s[i]);
            if j < s.len() {
                assert(t[j] == s[j]);
            } else {
                assert(s[s.len() - 1].offset <= w.offset);
                assert(s[i].offset <= s[s.len() - 1].offset || i == s.len() - 1);
            }
        }
    } else {
        let init = s.drop_last();
        let l = s.last();
        assert(by_offset(init)) by {
            assert forall|i: int, j: int| 0 <= i < j < init.len() implies (
            #[trigger] init[i]).offset <= (#[trigger] init[j]).offset by {
                assert(init[i] == s[i] && init[j] == s[j]);
            }
        }
        lemma_insert_by_offset_sorted(init, w);
        lemma_insert_contents(init, w);
        let u = insert_by_offset(init, w);
        let t = u.push(l);
        assert forall|i: int, j: int| 0 <= i < j < t.len() implies (#[trigger] t[i]).offset <= (
        #[trigger] t[j]).offset by {
            assert(t[i] == u[i]);
            if j < u.len() {
                assert(t[j] == u[j]);
            } else {
                assert(t[j] == l);
                assert(u.contains(u[i]));
                if u[i] == w {
                } else {
                    assert(init.contains(u[i]));
                    let m = choose|m: int| 0 <= m < init.len() && init[m] == u[i];
                    assert(s[m] == init[m]);
                    assert(s[s.len() - 1] == l);
                }
            }
        }
    }
}

proof fn lemma_well_formed_prefix(ps: Seq<Yaml>)
    requires
        ps.len() > 0,
        all_well_formed(ps),
    ensures
        all_well_formed(ps.drop_last()),
        entry_window(ps.last()) is Some,
        sorted_windows(ps) == insert_by_offset(sorted_windows(ps.drop_last()), window_of(ps.last())),
{
    let init = ps.drop_last();
    assert forall|i: int| 0 <= i < init.len() implies (#[trigger] entry_window(init[i])) is Some by {
        assert(init[i] == ps[i]);
        assert(entry_window(ps[i]) is Some);
    }
    assert(ps[ps.len() - 1] == ps.last());
    assert(entry_window(ps[ps.len() - 1]) is Some);
}

/// With every entry well formed, `sorted_windows` is in order of offset.
proof fn lemma_sorted_windows_by_offset(ps: Seq<Yaml>)
    requires
        all_well_formed(ps),
    ensures
        by_offset(sorted_windows(ps)),
    decreases ps.len(),
{
    if ps.len() > 0 {
        lemma_well_formed_prefix(ps);
        lemma_sorted_windows_by_offset(ps.drop_last());
        lemma_insert_by_offset_sorted(sorted_windows(ps.drop_last()), window_of(ps.last()));
    }
}

/// With every entry well formed, `sorted_windows` holds exactly the
/// entries' windows.
proof fn lemma_sorted_windows_contents(ps: Seq<Yaml>)
    requires
        all_well_formed(ps),
    ensures
        forall|x: WindowView| #[trigger]
            sorted_windows(ps).contains(x) <==> is_entry_window(ps, x),
    decreases ps.len(),
{
    if ps.len() > 0 {
        let init = ps.drop_last();
        let n = ps.len() - 1;
        lemma_well_formed_prefix(ps);
        lemma_sorted_windows_contents(init);
        let s = sorted_windows(init);
        let w = window_of(ps.last());
        lemma_insert_contents(s, w);
        assert(ps[n] == ps.last());
        assert forall|x: WindowView| #[trigger]
            sorted_windows(ps).contains(x) <==> is_entry_window(ps, x) by {
            if sorted_windows(ps).contains(x) {
                if x == w {
                    assert(x == window_of(ps[n]));
                } else {
                    assert(s.contains(x));
                    assert(is_entry_window(init, x));
                    let i = choose|i: int| 0 <= i < init.len() && x == window_of(#[trigger] init[i]);
                    assert(init[i] == ps[i]);
                }
            }
            if is_entry_window(ps, x) {
                let i = choose|i: int| 0 <= i < ps.len() && x == window_of(#[trigger] ps[i]);
                if i < n {
                    assert(init[i] == ps[i]);
                    assert(is_entry_window(init, x));
                }
            }
        }
    }
}

proof fn lemma_windows_disjoint_split(ps: Seq<Yaml>)
    requires
        ps.len() > 0,
    ensures
        windows_disjoint(ps) <==> (windows_disjoint(ps.drop_last()) && forall|i: int|
            0 <= i < ps.len() - 1 ==> disjoint(window_of(#[trigger] ps.drop_last()[i]), window_of(ps.last()))),
{
    let init = ps.drop_last();
    let n = ps.len() - 1;
    assert(ps[n] == ps.last());
    if windows_disjoint(ps) {
        assert forall|i: int, j: int| 0 <= i < j < init.len() implies disjoint(
            window_of(#[trigger] init[i]),
            window_of(#[trigger] init[j]),
        ) by {
            assert(init[i] == ps[i] && init[j] == ps[j]);
        }
        assert forall|i: int| 0 <= i < n implies disjoint(window_of(#[trigger] init[i]), window_of(ps.last())) by {
            assert(init[i] == ps[i]);
            assert(disjoint(window_of(ps[i]), window_of(ps[n])));
        }
    }
    if windows_disjoint(init) && forall|i: int|
        0 <= i < n ==> disjoint(window_of(#[trigger] init[i]), window_of(ps.last())) {
        assert forall|i: int, j: int| 0 <= i < j < ps.len() implies disjoint(
            window_of(#[trigger] ps[i]),
            window_of(#[trigger] ps[j]),
        ) by {
            assert(init[i] == ps[i]);
            if j < n {
                assert(init[j] == ps[j]);
            }
        }
    }
}

/// With every entry well formed, `sorted_windows` is pairwise disjoint
/// exactly when the entries' windows are.
proof fn lemma_sorted_windows_disjoint(ps: Seq<Yaml>)
    requires
        all_well_formed(ps),
    ensures
        pairwise_disjoint(sorted_windows(ps)) <==> windows_disjoint(ps),
    decreases ps.len(),
{
    if ps.len() > 0 {
        let init = ps.drop_last();
        lemma_well_formed_prefix(ps);
        lemma_sorted_windows_disjoint(init);
        lemma_sorted_windows_contents(init);
        let s = sorted_windows(init);
        let w = window_of(ps.last());
        lemma_insert_pairwise(s, w);
        lemma_windows_disjoint_split(ps);
        let all_w = forall|k: int| 0 <= k < s.len() ==> disjoint(#[trigger] s[k], w);
        let all_entries_w = forall|i: int|
            0 <= i < ps.len() - 1 ==> disjoint(window_of(#[trigger] init[i]), w);
        assert(all_w <==> all_entries_w) by {
            if all_w {
                assert forall|i: int| 0 <= i < ps.len() - 1 implies disjoint(
                    window_of(#[trigger] init[i]),
                    w,
                ) by {
                    assert(is_entry_window(init, window_of(init[i])));
                    assert(s.contains(window_of(init[i])));
                    let k = choose|k: int| 0 <= k < s.len() && s[k] == window_of(init[i]);
                    assert(disjoint(s[k], w));
                }
            }
            if all_entries_w {
                assert forall|k: int| 0 <= k < s.len() implies disjoint(#[trigger] s[k], w) by {
                    assert(s.contains(s[k]));
                    assert(is_entry_window(init, s[k]));
                    let i = choose|i: int| 0 <= i < init.len() && s[k] == window_of(#[trigger] init[i]);
                    assert(disjoint(window_of(init[i]), w));
                }
            }
        }
    }
}

/// Neighbouring windows of `s` do not overlap.
pub open spec fn neighbours_clear(s: Seq<WindowView>) -> bool {
    forall|i: int, j: int| 0 <= i && j == i + 1 && j < s.len() ==> (#[trigger] s[i]).end <= (
    #[trigger] s[j]).offset
}

/// Every window of `s` lasts some time.
pub open spec fn all_nonempty(s: Seq<WindowView>) -> bool {
    forall|k: int| 0 <= k < s.len() ==> (#[trigger] s[k]).offset < s[k].end
}

proof fn lemma_overlap_messages_empty(s: Seq<WindowView>)
    ensures
        overlap_messages(s).len() == 0 <==> neighbours_clear(s),
    decreases s.len(),
{
    if s.len() >= 2 {
        let init = s.drop_last();
        lemma_overlap_messages_empty(init);
        let n = s.len() - 1;
        if neighbours_clear(s) {
            assert forall|i: int, j: int| 0 <= i && j == i + 1 && j < init.len() implies (
            #[trigger] init[i]).end <= (#[trigger] init[j]).offset by {
                assert(init[i] == s[i] && init[j] == s[j]);
            }
            assert(s[n - 1].end <= s[n].offset);
        }
        if overlap_messages(s).len() == 0 {
            assert(overlap_messages(init).len() == 0);
            assert(!(s[n - 1].end > s.last().offset));
            assert forall|i: int, j: int| 0 <= i && j == i + 1 && j < s.len() implies (
            #[trigger] s[i]).end <= (#[trigger] s[j]).offset by {
                if j < n {
                    assert(init[i] == s[i] && init[j] == s[j]);
                }
            }
        }
    }
}

/// Every window of `s` ends no earlier than it starts.
pub open spec fn all_forward(s: Seq<WindowView>) -> bool {
    forall|k: int| 0 <= k < s.len() ==> (#[trigger] s[k]).offset <= s[k].end
}

proof fn lemma_chain(s: Seq<WindowView>, i: int, j: int)
    requires
        all_forward(s),
        neighbours_clear(s),
        0 <= i < j < s.len(),
    ensures
        s[i].end <= s[j].offset,
    decreases j - i,
{
    if j > i + 1 {
        lemma_chain(s, i, j - 1);
        assert(s[j - 1].offset <= s[j - 1].end);
        assert(s[j - 1].end <= s[j].offset);
    } else {
        assert(s[i].end <= s[j].offset);
    }
}

/// Windows whose neighbours do not overlap are pairwise disjoint.
proof fn lemma_neighbours_clear_disjoint(s: Seq<WindowView>)
    requires
        all_forward(s),
        neighbours_clear(s),
    ensures
        pairwise_disjoint(s),
{
    assert forall|i: int, j: int| 0 <= i < j < s.len() implies disjoint(
        #[trigger] s[i],
        #[trigger] s[j],
    ) by {
        lemma_chain(s, i, j);
    }
}

/// For windows in order of offset that all last some time, pairwise
/// disjoint windows have neighbours that do not overlap.
proof fn lemma_disjoint_neighbours_clear(s: Seq<WindowView>)
    requires
        by_offset(s),
        all_nonempty(s),
        pairwise_disjoint(s),
    ensures
        neighbours_clear(s),
{
    assert forall|i: int, j: int| 0 <= i && j == i + 1 && j < s.len() implies (
    #[trigger] s[i]).end <= (#[trigger] s[j]).offset by {
        assert(disjoint(s[i], s[j]));
        assert(s[i].offset <= s[j].offset);
        assert(s[j].offset < s[j].end);
    }
}

/// With every entry well formed, every window of `sorted_windows` ends no
/// earlier than it starts.
proof fn lemma_sorted_windows_forward(ps: Seq<Yaml>)
    requires
        all_well_formed(ps),
    ensures
        all_forward(sorted_windows(ps)),
{
    let sw = sorted_windows(ps);
    lemma_sorted_windows_contents(ps);
    assert forall|k: int| 0 <= k < sw.len() implies (#[trigger] sw[k]).offset <= sw[k].end by {
        assert(sw.contains(sw[k]));
        assert(is_entry_window(ps, sw[k]));
        let i = choose|i: int| 0 <= i < ps.len() && sw[k] == window_of(#[trigger] ps[i]);
        assert(entry_window(ps[i]) is Some);
    }
}

// ------------------------------------------------------------------
// The required schedule, read straight off the YAML tree
// ------------------------------------------------------------------

/// The text under `key` of a mapping.
pub open spec fn text_at(y: Yaml, key: Seq<char>) -> Option<Seq<char>> {
    match yaml_get(y, key) {
        Some(v) => yaml_text(v),
        None => None,
    }
}

/// The items under `key` of a mapping.
pub open spec fn items_at(y: Yaml, key: Seq<char>) -> Option<Seq<Yaml>> {
    match yaml_get(y, key) {
        Some(v) => yaml_items(v),
        None => None,
    }
}

/// The duration under `key` of a mapping, in milliseconds.
pub open spec fn ms_at(y: Yaml, key: Seq<char>) -> Option<nat> {
    match text_at(y, key) {
        Some(t) => duration_ms(t),
        None => None,
    }
}

/// An entry has a duration, an offset and a period, its period is the
/// major frame, and it ends inside the major frame.
pub open spec fn entry_conforms(p: Yaml, major: nat) -> bool {
    match (ms_at(p, "duration"@), ms_at(p, "offset"@), ms_at(p, "period"@)) {
        (Some(d), Some(o), Some(per)) => per == major && o + d <= major,
        _ => false,
    }
}

/// One of the two entries ends no later than the other starts.
pub open spec fn apart(p: Yaml, q: Yaml) -> bool {
    match (ms_at(p, "offset"@), ms_at(p, "duration"@), ms_at(q, "offset"@), ms_at(q, "duration"@)) {
        (Some(a), Some(da), Some(b), Some(db)) => a + da <= b || b + db <= a,
        _ => false,
    }
}

/// No two entries run at the same instant.
pub open spec fn entries_apart(ps: Seq<Yaml>) -> bool {
    forall|i: int, j: int| 0 <= i < j < ps.len() ==> apart(#[trigger] ps[i], #[trigger] ps[j])
}

/// Entry `i` is named `fuel_controller` and no later entry is.
pub open spec fn last_controller_at(ps: Seq<Yaml>, i: int) -> bool {
    &&& text_at(ps[i], "name"@) == Some("fuel_controller"@)
    &&& forall|j: int| i < j < ps.len() ==> text_at(#[trigger] ps[j], "name"@) != Some("fuel_controller"@)
}

/// The last entry named `fuel_controller` is granted between 1 ms and 5 ms.
pub open spec fn controller_granted(ps: Seq<Yaml>) -> bool {
    exists|i: int|
        0 <= i < ps.len() && #[trigger] last_controller_at(ps, i) && (ms_at(ps[i], "duration"@) matches Some(d)
            && 1 <= d <= 5)
}

/// `source.<key>` of a channel entry.
pub open spec fn source_text_at(ch: Yaml, key: Seq<char>) -> Option<Seq<char>> {
    match yaml_get(ch, "source"@) {
        Some(src) => text_at(src, key),
        None => None,
    }
}

/// The channel entry lists some destination.
pub open spec fn delivers(ch: Yaml) -> bool {
    items_at(ch, "destination"@) matches Some(ds) && ds.len() > 0
}

/// A channel entry that lists some destination names its source
/// partition, and some entry of `ps` has that name.
pub open spec fn source_listed(ch: Yaml, ps: Seq<Yaml>) -> bool {
    delivers(ch) ==> (source_text_at(ch, "partition"@) matches Some(part) && exists|k: int|
        0 <= k < ps.len() && #[trigger] text_at(ps[k], "name"@) == Some(part))
}

/// The channel entry has the source port `iom_to_fuel` and lists
/// `fuel_controller` among its destination partitions.
pub open spec fn carries_sensors_to_controller(ch: Yaml) -> bool {
    &&& source_text_at(ch, "port"@) == Some("iom_to_fuel"@)
    &&& items_at(ch, "destination"@) matches Some(ds)
    &&& exists|j: int|
        0 <= j < ds.len() && #[trigger] text_at(ds[j], "partition"@) == Some("fuel_controller"@)
}

/// The channel entry has `fuel_controller` as its source partition.
pub open spec fn sent_by_controller(ch: Yaml) -> bool {
    source_text_at(ch, "partition"@) == Some("fuel_controller"@)
}

/// The channels are listed; each one that delivers somewhere has a source
/// partition among `ps`; one carries `iom_to_fuel` to `fuel_controller`;
/// and one is sent by `fuel_controller`.
pub open spec fn channels_wired(doc: Yaml, ps: Seq<Yaml>) -> bool {
    &&& items_at(doc, "channel"@) matches Some(chs)
    &&& forall|i: int| 0 <= i < chs.len() ==> #[trigger] source_listed(chs[i], ps)
    &&& exists|i: int| 0 <= i < chs.len() && #[trigger] carries_sensors_to_controller(chs[i])
    &&& exists|i: int| 0 <= i < chs.len() && #[trigger] sent_by_controller(chs[i])
}

proof fn lemma_partition_messages_empty(ps: Seq<Yaml>, major: nat)
    ensures
        partition_messages(ps, major).len() == 0 <==> forall|i: int|
            0 <= i < ps.len() ==> entry_conforms(#[trigger] ps[i], major),
    decreases ps.len(),
{
    if ps.len() > 0 {
        let init = ps.drop_last();
        let n = ps.len() - 1;
        lemma_partition_messages_empty(init, major);
        assert(ps[n] == ps.last());
        assert(entry_messages(ps.last(), major).len() == 0 <==> entry_conforms(ps.last(), major));
        if partition_messages(ps, major).len() == 0 {
            assert forall|i: int| 0 <= i < ps.len() implies entry_conforms(#[trigger] ps[i], major) by {
                if i < n {
                    assert(init[i] == ps[i]);
                }
            }
        }
        if forall|i: int| 0 <= i < ps.len() ==> entry_conforms(#[trigger] ps[i], major) {
            assert forall|i: int| 0 <= i < init.len() implies entry_conforms(#[trigger] init[i], major) by {
                assert(init[i] == ps[i]);
            }
            assert(entry_conforms(ps[n], major));
        }
    }
}

/// A schedule as the fuel CPM requires it: a major frame; every partition
/// runs once per major frame inside it; no two partitions run at the same
/// instant; the last `fuel_controller` partition is granted between 1 ms
/// and 5 ms; every sampling channel that delivers to some destination has
/// a source partition declared under `partitions`; and `fuel_controller`
/// reads the `iom_to_fuel` channel and is the source of a channel.
pub open spec fn schedule_conforms(doc: Yaml) -> bool {
    match (ms_at(doc, "major_frame"@), items_at(doc, "partitions"@)) {
        (Some(major), Some(ps)) => {
            &&& forall|i: int| 0 <= i < ps.len() ==> entry_conforms(#[trigger] ps[i], major)
            &&& entries_apart(ps)
            &&& controller_granted(ps)
            &&& channels_wired(doc, ps)
        },
        _ => false,
    }
}

/// The same schedule as `schedule_conforms`, phrased over the checker's
/// own views of the entries and channels.
spec fn checks_conform(doc: Yaml) -> bool {
    match opt_text(yaml_get(doc, "major_frame"@)) {
        None => false,
        Some(s) => match duration_ms(s) {
            None => false,
            Some(major) => match opt_items(yaml_get(doc, "partitions"@)) {
                None => false,
                Some(ps) => {
                    &&& forall|i: int| 0 <= i < ps.len() ==> entry_conforms(#[trigger] ps[i], major)
                    &&& windows_disjoint(ps)
                    &&& controller_duration(ps) matches Some(d) && 1 <= d <= 5
                    &&& channels_conform(doc, ps)
                },
            },
        },
    }
}

/// The channels of `doc` are listed; each one that delivers to some
/// destination has a source partition among `ps`; and `fuel_controller`
/// reads the sensors and writes commands.
pub open spec fn channels_conform(doc: Yaml, ps: Seq<Yaml>) -> bool {
    match opt_items(yaml_get(doc, "channel"@)) {
        Some(chs) => every_source_declared(chs, ps) && reads_sensors(chs) && writes_commands(chs),
        None => false,
    }
}

/// Every partition that has a duration runs for some time.
pub open spec fn windows_nonempty(doc: Yaml) -> bool {
    items_at(doc, "partitions"@) matches Some(ps) ==> forall|i: int|
        0 <= i < ps.len() ==> (#[trigger] ms_at(ps[i], "duration"@) matches Some(d) ==> d > 0)
}

/// Every well-formed window of the entries lasts some time.
pub open spec fn entries_nonempty(ps: Seq<Yaml>) -> bool {
    forall|i: int|
        0 <= i < ps.len() ==> (#[trigger] entry_window(ps[i]) matches Some(w) ==> w.offset < w.end)
}

proof fn lemma_source_messages_empty(chs: Seq<Yaml>, ps: Seq<Yaml>)
    ensures
        channel_source_messages(chs, ps).len() == 0 <==> every_source_declared(chs, ps),
    decreases chs.len(),
{
    if chs.len() > 0 {
        let init = chs.drop_last();
        let n = chs.len() - 1;
        lemma_source_messages_empty(init, ps);
        assert(chs[n] == chs.last());
        if channel_source_messages(chs, ps).len() == 0 {
            assert forall|i: int| 0 <= i < chs.len() implies #[trigger] channel_source_ok(
                chs[i],
                ps,
            ) by {
                if i < n {
                    assert(init[i] == chs[i]);
                }
            }
        }
        if every_source_declared(chs, ps) {
            assert forall|i: int| 0 <= i < init.len() implies #[trigger] channel_source_ok(
                init[i],
                ps,
            ) by {
                assert(init[i] == chs[i]);
            }
            assert(channel_source_ok(chs[n], ps));
        }
    }
}

proof fn lemma_channel_messages_empty(doc: Yaml, ps: Seq<Yaml>)
    ensures
        channel_messages(doc, ps).len() == 0 <==> channels_conform(doc, ps),
{
    if let Some(chs) = opt_items(yaml_get(doc, "channel"@)) {
        lemma_source_messages_empty(chs, ps);
    }
}

/// With no message on the entries and none on overlapping neighbours,
/// every entry conforms and no two entries' windows share an instant.
proof fn lemma_window_messages_pass(ps: Seq<Yaml>, major: nat)
    requires
        partition_messages(ps, major).len() == 0,
        overlap_messages(sorted_windows(ps)).len() == 0,
    ensures
        forall|i: int| 0 <= i < ps.len() ==> entry_conforms(#[trigger] ps[i], major),
        windows_disjoint(ps),
{
    let sw = sorted_windows(ps);
    lemma_partition_messages_empty(ps, major);
    assert(all_well_formed(ps)) by {
        assert forall|i: int| 0 <= i < ps.len() implies (#[trigger] entry_window(ps[i])) is Some by {
            assert(entry_conforms(ps[i], major));
        }
    }
    lemma_sorted_windows_forward(ps);
    lemma_sorted_windows_disjoint(ps);
    lemma_overlap_messages_empty(sw);
    lemma_neighbours_clear_disjoint(sw);
}

/// Where every entry conforms, their windows all last some time and no
/// two share an instant, there is no message on the entries and none on
/// overlapping neighbours.
proof fn lemma_window_messages_conform(ps: Seq<Yaml>, major: nat)
    requires
        entries_nonempty(ps),
        forall|i: int| 0 <= i < ps.len() ==> entry_conforms(#[trigger] ps[i], major),
        windows_disjoint(ps),
    ensures
        partition_messages(ps, major).len() == 0,
        overlap_messages(sorted_windows(ps)).len() == 0,
{
    let sw = sorted_windows(ps);
    lemma_partition_messages_empty(ps, major);
    assert(all_well_formed(ps)) by {
        assert forall|i: int| 0 <= i < ps.len() implies (#[trigger] entry_window(ps[i])) is Some by {
            assert(entry_conforms(ps[i], major));
        }
    }
    lemma_sorted_windows_by_offset(ps);
    lemma_sorted_windows_contents(ps);
    lemma_sorted_windows_disjoint(ps);
    assert(all_nonempty(sw)) by {
        assert forall|k: int| 0 <= k < sw.len() implies (#[trigger] sw[k]).offset < sw[k].end by {
            assert(sw.contains(sw[k]));
            assert(is_entry_window(ps, sw[k]));
            let i = choose|i: int| 0 <= i < ps.len() && sw[k] == window_of(#[trigger] ps[i]);
            assert(entry_window(ps[i]) is Some);
        }
    }
    lemma_disjoint_neighbours_clear(sw);
    lemma_overlap_messages_empty(sw);
}

// ------------------------------------------------------------------
// The checker's views and the YAML tree
// ------------------------------------------------------------------

proof fn lemma_lookups(y: Yaml, key: Seq<char>)
    ensures
        text_at(y, key) == field_text(y, key),
        ms_at(y, key) == field_ms(y, key),
        items_at(y, key) == opt_items(yaml_get(y, key)),
{
}

proof fn lemma_apart_pair(p: Yaml, q: Yaml)
    requires
        entry_window(p) is Some,
        entry_window(q) is Some,
    ensures
        apart(p, q) <==> disjoint(window_of(p), window_of(q)),
{
    lemma_lookups(p, "offset"@);
    lemma_lookups(p, "duration"@);
    lemma_lookups(q, "offset"@);
    lemma_lookups(q, "duration"@);
}

/// With every entry well formed, no two entries run at the same instant
/// exactly when no two of their windows overlap.
proof fn lemma_entries_apart(ps: Seq<Yaml>)
    requires
        all_well_formed(ps),
    ensures
        entries_apart(ps) <==> windows_disjoint(ps),
{
    if entries_apart(ps) {
        assert forall|i: int, j: int| 0 <= i < j < ps.len() implies disjoint(
            window_of(#[trigger] ps[i]),
            window_of(#[trigger] ps[j]),
        ) by {
            assert(entry_window(ps[i]) is Some && entry_window(ps[j]) is Some);
            lemma_apart_pair(ps[i], ps[j]);
        }
    }
    if windows_disjoint(ps) {
        assert forall|i: int, j: int| 0 <= i < j < ps.len() implies apart(
            #[trigger] ps[i],
            #[trigger] ps[j],
        ) by {
            assert(entry_window(ps[i]) is Some && entry_window(ps[j]) is Some);
            lemma_apart_pair(ps[i], ps[j]);
        }
    }
}

proof fn lemma_entry_controller(p: Yaml)
    requires
        entry_window(p) is Some,
    ensures
        entry_controller_duration(p) == (if text_at(p, "name"@) == Some("fuel_controller"@) {
            ms_at(p, "duration"@)
        } else {
            None
        }),
{
    reveal_strlit("?");
    reveal_strlit("fuel_controller");
    lemma_lookups(p, "name"@);
    lemma_lookups(p, "duration"@);
    assert("?"@.len() != "fuel_controller"@.len());
}

/// The last `fuel_controller` entry of all but the last entry is still
/// the last one when the last entry has another name.
proof fn lemma_last_controller_extend(ps: Seq<Yaml>, k: int)
    requires
        ps.len() > 0,
        text_at(ps.last(), "name"@) != Some("fuel_controller"@),
        0 <= k < ps.len() - 1,
        last_controller_at(ps.drop_last(), k),
    ensures
        last_controller_at(ps, k),
{
    let init = ps.drop_last();
    let n = ps.len() - 1;
    assert(init[k] == ps[k]);
    assert(ps[n] == ps.last());
    assert forall|j: int| k < j < ps.len() implies text_at(
        #[trigger] ps[j],
        "name"@,
    ) != Some("fuel_controller"@) by {
        if j < n {
            assert(init[j] == ps[j]);
        }
    }
}

proof fn lemma_controller_duration(ps: Seq<Yaml>)
    requires
        all_well_formed(ps),
    ensures
        controller_duration(ps) is None ==> forall|i: int|
            0 <= i < ps.len() ==> text_at(#[trigger] ps[i], "name"@) != Some("fuel_controller"@),
        controller_duration(ps) matches Some(d) ==> exists|i: int|
            0 <= i < ps.len() && #[trigger] last_controller_at(ps, i) && ms_at(ps[i], "duration"@)
                == Some(d),
    decreases ps.len(),
{
    if ps.len() > 0 {
        let init = ps.drop_last();
        let n = ps.len() - 1;
        lemma_well_formed_prefix(ps);
        assert(ps[n] == ps.last());
        lemma_entry_controller(ps[n]);
        lemma_controller_duration(init);
        if text_at(ps[n], "name"@) == Some("fuel_controller"@) {
            assert(last_controller_at(ps, n));
        } else {
            assert(controller_duration(ps) == controller_duration(init));
            if controller_duration(ps) is None {
                assert forall|i: int| 0 <= i < ps.len() implies text_at(
                    #[trigger] ps[i],
                    "name"@,
                ) != Some("fuel_controller"@) by {
                    if i < n {
                        assert(init[i] == ps[i]);
                    }
                }
            }
            if let Some(d) = controller_duration(ps) {
                let k = choose|k: int|
                    0 <= k < init.len() && #[trigger] last_controller_at(init, k) && ms_at(
                        init[k],
                        "duration"@,
                    ) == Some(d);
                lemma_last_controller_extend(ps, k);
            }
        }
    }
}

/// With every entry well formed, the checker's controller duration lies
/// between 1 ms and 5 ms exactly when the last entry named
/// `fuel_controller` is granted that.
proof fn lemma_controller(ps: Seq<Yaml>)
    requires
        all_well_formed(ps),
    ensures
        (controller_duration(ps) matches Some(d) && 1 <= d <= 5) <==> controller_granted(ps),
{
    lemma_controller_duration(ps);
    if controller_granted(ps) {
        let i = choose|i: int|
            0 <= i < ps.len() && #[trigger] last_controller_at(ps, i) && (ms_at(
                ps[i],
                "duration"@,
            ) matches Some(d) && 1 <= d <= 5);
        assert(controller_duration(ps) is Some);
        let d = controller_duration(ps)->0;
        let k = choose|k: int|
            0 <= k < ps.len() && #[trigger] last_controller_at(ps, k) && ms_at(ps[k], "duration"@)
                == Some(d);
        if i < k {
            assert(text_at(ps[k], "name"@) != Some("fuel_controller"@));
        }
        if k < i {
            assert(text_at(ps[i], "name"@) != Some("fuel_controller"@));
        }
        assert(i == k);
    }
}

/// A lookup in a channel entry reads its body.
proof fn lemma_channel_lookup(ch: Yaml, key: Seq<char>)
    ensures
        yaml_get(ch, key) == opt_get(channel_body(ch), key),
{
}

proof fn lemma_channel_direct(ch: Yaml, ps: Seq<Yaml>)
    ensures
        channel_source_ok(ch, ps) <==> source_listed(ch, ps),
        channel_feeds_controller(ch) <==> carries_sensors_to_controller(ch),
        channel_from_controller(ch) <==> sent_by_controller(ch),
{
    lemma_channel_lookup(ch, "source"@);
    lemma_channel_lookup(ch, "destination"@);
    if let Some(m) = channel_body(ch) {
        if let Some(part) = source_field(m, "partition"@) {
            if declared(ps, part) {
                let k = choose|k: int|
                    0 <= k < ps.len() && #[trigger] field_text(ps[k], "name"@) == Some(part);
                lemma_lookups(ps[k], "name"@);
                assert(text_at(ps[k], "name"@) == Some(part));
            }
            if exists|k: int| 0 <= k < ps.len() && #[trigger] text_at(ps[k], "name"@) == Some(part) {
                let k = choose|k: int|
                    0 <= k < ps.len() && #[trigger] text_at(ps[k], "name"@) == Some(part);
                lemma_lookups(ps[k], "name"@);
                assert(field_text(ps[k], "name"@) == Some(part));
            }
        }
        let ds = destinations(m);
        if exists|j: int| 0 <= j < ds.len() && #[trigger] dest_is_controller(ds[j]) {
            let j = choose|j: int| 0 <= j < ds.len() && #[trigger] dest_is_controller(ds[j]);
            lemma_lookups(ds[j], "partition"@);
            assert(text_at(ds[j], "partition"@) == Some("fuel_controller"@));
        }
        if let Some(ds2) = items_at(ch, "destination"@) {
            assert(ds2 == ds);
            if exists|j: int| 0 <= j < ds.len() && #[trigger] text_at(ds[j], "partition"@) == Some(
                "fuel_controller"@,
            ) {
                let j = choose|j: int|
                    0 <= j < ds.len() && #[trigger] text_at(ds[j], "partition"@) == Some(
                        "fuel_controller"@,
                    );
                lemma_lookups(ds[j], "partition"@);
                assert(dest_is_controller(ds[j]));
            }
        }
    }
}

/// The checker's view of the channels agrees with the YAML tree.
proof fn lemma_channels(doc: Yaml, ps: Seq<Yaml>)
    ensures
        channels_conform(doc, ps) <==> channels_wired(doc, ps),
{
    lemma_lookups(doc, "channel"@);
    if let Some(chs) = opt_items(yaml_get(doc, "channel"@)) {
        if every_source_declared(chs, ps) {
            assert forall|i: int| 0 <= i < chs.len() implies #[trigger] source_listed(chs[i], ps) by {
                lemma_channel_direct(chs[i], ps);
            }
        }
        if forall|i: int| 0 <= i < chs.len() ==> #[trigger] source_listed(chs[i], ps) {
            assert forall|i: int| 0 <= i < chs.len() implies #[trigger] channel_source_ok(
                chs[i],
                ps,
            ) by {
                lemma_channel_direct(chs[i], ps);
            }
        }
        if reads_sensors(chs) {
            let i = choose|i: int| 0 <= i < chs.len() && #[trigger] channel_feeds_controller(chs[i]);
            lemma_channel_direct(chs[i], ps);
        }
        if exists|i: int| 0 <= i < chs.len() && #[trigger] carries_sensors_to_controller(chs[i]) {
            let i = choose|i: int|
                0 <= i < chs.len() && #[trigger] carries_sensors_to_controller(chs[i]);
            lemma_channel_direct(chs[i], ps);
        }
        if writes_commands(chs) {
            let i = choose|i: int| 0 <= i < chs.len() && #[trigger] channel_from_controller(chs[i]);
            lemma_channel_direct(chs[i], ps);
        }
        if exists|i: int| 0 <= i < chs.len() && #[trigger] sent_by_controller(chs[i]) {
            let i = choose|i: int| 0 <= i < chs.len() && #[trigger] sent_by_controller(chs[i]);
            lemma_channel_direct(chs[i], ps);
        }
    }
}

/// The checker's phrasing of the required schedule agrees with the one
/// read straight off the YAML tree.
proof fn lemma_schedule_direct(doc: Yaml)
    ensures
        checks_conform(doc) <==> schedule_conforms(doc),
{
    lemma_lookups(doc, "major_frame"@);
    lemma_lookups(doc, "partitions"@);
    if let (Some(major), Some(ps)) = (ms_at(doc, "major_frame"@), items_at(doc, "partitions"@)) {
        if forall|i: int| 0 <= i < ps.len() ==> entry_conforms(#[trigger] ps[i], major) {
            assert(all_well_formed(ps)) by {
                assert forall|i: int| 0 <= i < ps.len() implies (#[trigger] entry_window(
                    ps[i],
                )) is Some by {
                    assert(entry_conforms(ps[i], major));
                    lemma_lookups(ps[i], "duration"@);
                    lemma_lookups(ps[i], "offset"@);
                    lemma_lookups(ps[i], "period"@);
                }
            }
            lemma_entries_apart(ps);
            lemma_controller(ps);
            lemma_channels(doc, ps);
        }
    }
}

/// A configuration that the validator passes has the schedule that the
/// fuel CPM requires (see `schedule_conforms`). In particular no two of
/// its partitions run at the same instant, and every sampling channel
/// that delivers to some destination has a declared source partition.
pub proof fn passing_schedule_conforms(doc: Yaml)
    ensures
        validation_report(doc).ok ==> schedule_conforms(doc),
        validation_report(doc).ok ==> (partitions_of(doc) matches Some(ps) && entries_apart(ps)),
{
    if let Some(s) = opt_text(yaml_get(doc, "major_frame"@)) {
        if let Some(major) = duration_ms(s) {
            if let Some(ps) = opt_items(yaml_get(doc, "partitions"@)) {
                let pm = partition_messages(ps, major);
                let om = overlap_messages(sorted_windows(ps));
                let m = pm + om + controller_messages(ps) + channel_messages(doc, ps);
                assert(validation_report(doc).ok == (m.len() == 0));
                if m.len() == 0 {
                    assert(pm.len() == 0 && om.len() == 0);
                    assert(channel_messages(doc, ps).len() == 0);
                    lemma_window_messages_pass(ps, major);
                    lemma_channel_messages_empty(doc, ps);
                    assert(checks_conform(doc));
                }
            }
        }
    }
    lemma_schedule_direct(doc);
    lemma_lookups(doc, "partitions"@);
}

/// A configuration whose schedule is as the fuel CPM requires passes the
/// validator, where every partition runs for some time.
pub proof fn conforming_schedule_passes(doc: Yaml)
    requires
        windows_nonempty(doc),
    ensures
        schedule_conforms(doc) ==> validation_report(doc).ok,
{
    lemma_schedule_direct(doc);
    if schedule_conforms(doc) {
        let s = opt_text(yaml_get(doc, "major_frame"@))->0;
        let major = duration_ms(s)->0;
        let ps = opt_items(yaml_get(doc, "partitions"@))->0;
        lemma_lookups(doc, "partitions"@);
        assert(entries_nonempty(ps)) by {
            assert forall|i: int| 0 <= i < ps.len() implies (#[trigger] entry_window(ps[i]) matches Some(
                w,
            ) ==> w.offset < w.end) by {
                lemma_lookups(ps[i], "duration"@);
                assert(ms_at(ps[i], "duration"@) matches Some(d) ==> d > 0);
            }
        }
        lemma_window_messages_conform(ps, major);
        lemma_channel_messages_empty(doc, ps);
        let m = partition_messages(ps, major) + overlap_messages(sorted_windows(ps))
            + controller_messages(ps) + channel_messages(doc, ps);
        assert(m.len() == 0);
    }
}

/// A configuration that the validator passes has a sampling channel whose
/// source port is `iom_to_fuel` and which lists `fuel_controller` among its
/// destinations, and a channel whose source partition is
/// `fuel_controller`.
pub proof fn passing_validation_wires_controller(doc: Yaml)
    ensures
        validation_report(doc).ok ==> ({
            &&& items_at(doc, "channel"@) matches Some(chs)
            &&& exists|i: int| 0 <= i < chs.len() && carries_sensors_to_controller(#[trigger] chs[i])
            &&& exists|i: int| 0 <= i < chs.len() && sent_by_controller(#[trigger] chs[i])
        }),
{
    passing_schedule_conforms(doc);
}

/// The sum of the durations of the entries.
pub open spec fn total_duration(ps: Seq<Yaml>) -> nat
    decreases ps.len(),
{
    if ps.len() == 0 {
        0
    } else {
        total_duration(ps.drop_last()) + match ms_at(ps.last(), "duration"@) {
            Some(d) => d,
            None => 0,
        }
    }
}

/// The sum of the lengths of the windows.
pub open spec fn windows_length(s: Seq<WindowView>) -> int
    decreases s.len(),
{
    if s.len() == 0 {
        0
    } else {
        windows_length(s.drop_last()) + (s.last().end - s.last().offset)
    }
}

proof fn lemma_insert_length(s: Seq<WindowView>, w: WindowView)
    ensures
        windows_length(insert_by_offset(s, w)) == windows_length(s) + (w.end - w.offset),
    decreases s.len(),
{
    if s.len() > 0 && s.last().offset > w.offset {
        lemma_insert_length(s.drop_last(), w);
        assert(insert_by_offset(s, w).drop_last() == insert_by_offset(s.drop_last(), w));
    } else if s.len() == 0 {
        assert(insert_by_offset(s, w).drop_last() =~= s);
    } else {
        assert(insert_by_offset(s, w).drop_last() =~= s);
    }
}

proof fn lemma_sorted_windows_length(ps: Seq<Yaml>)
    requires
        all_well_formed(ps),
    ensures
        windows_length(sorted_windows(ps)) == total_duration(ps),
    decreases ps.len(),
{
    if ps.len() > 0 {
        lemma_well_formed_prefix(ps);
        lemma_sorted_windows_length(ps.drop_last());
        lemma_insert_length(sorted_windows(ps.drop_last()), window_of(ps.last()));
    }
}

/// Windows in order of offset whose neighbours do not overlap take up no
/// more than the span from the first start to the last end.
proof fn lemma_chain_length(s: Seq<WindowView>)
    requires
        s.len() > 0,
        neighbours_clear(s),
        all_forward(s),
    ensures
        windows_length(s) <= s.last().end - s[0].offset,
    decreases s.len(),
{
    if s.len() > 1 {
        let init = s.drop_last();
        assert forall|i: int, j: int| 0 <= i && j == i + 1 && j < init.len() implies (
        #[trigger] init[i]).end <= (#[trigger] init[j]).offset by {
            assert(init[i] == s[i] && init[j] == s[j]);
        }
        assert forall|k: int| 0 <= k < init.len() implies (#[trigger] init[k]).offset <= init[k].end by {
            assert(init[k] == s[k]);
        }
        lemma_chain_length(init);
        assert(init.last() == s[s.len() - 2]);
        assert(s[s.len() - 2].end <= s[s.len() - 1].offset);
        assert(init[0] == s[0]);
        assert(s.last() == s[s.len() - 1]);
        assert(windows_length(s) == windows_length(init) + (s.last().end - s.last().offset));
    } else {
        assert(s.drop_last() =~= Seq::<WindowView>::empty());
        assert(s.last() == s[0]);
        assert(s[0].offset <= s[0].end);
        assert(windows_length(s) == windows_length(s.drop_last()) + (s.last().end - s.last().offset));
    }
}

/// The major frame of a configuration, where it has one.
pub open spec fn major_frame_of(doc: Yaml) -> Option<nat> {
    ms_at(doc, "major_frame"@)
}

/// The partition entries of a configuration, where it lists them.
pub open spec fn partitions_of(doc: Yaml) -> Option<Seq<Yaml>> {
    items_at(doc, "partitions"@)
}

/// A configuration that the validator passes fits its major frame budget:
/// the durations of all its partitions add up to no more than the major
/// frame.
pub proof fn passing_schedule_fits_major_frame(doc: Yaml)
    requires
        validation_report(doc).ok,
    ensures
        major_frame_of(doc) is Some,
        partitions_of(doc) is Some,
        total_duration(partitions_of(doc)->0) <= major_frame_of(doc)->0,
{
    let major = major_frame_of(doc)->0;
    let ps = partitions_of(doc)->0;
    let pm = partition_messages(ps, major);
    let sw = sorted_windows(ps);
    assert(pm.len() == 0 && overlap_messages(sw).len() == 0);
    lemma_partition_messages_empty(ps, major);
    assert(all_well_formed(ps)) by {
        assert forall|i: int| 0 <= i < ps.len() implies (#[trigger] entry_window(ps[i])) is Some by {
            assert(entry_conforms(ps[i], major));
        }
    }
    lemma_sorted_windows_length(ps);
    if sw.len() > 0 {
        lemma_sorted_windows_contents(ps);
        lemma_overlap_messages_empty(sw);
        lemma_sorted_windows_forward(ps);
        lemma_chain_length(sw);
        let l = sw.last();
        assert(sw.contains(sw[sw.len() - 1]));
        assert(is_entry_window(ps, l));
        let i = choose|i: int| 0 <= i < ps.len() && l == window_of(#[trigger] ps[i]);
        assert(entry_conforms(ps[i], major));
    } else {
        assert(sw =~= Seq::<WindowView>::empty());
    }
}

/// A passing report says only that the configuration looks good; a
/// failing one always gives at least one reason.
pub proof fn report_says_why(doc: Yaml)
    ensures
        validation_report(doc).ok ==> validation_report(doc).messages == seq![looks_good_message()],
        !validation_report(doc).ok ==> validation_report(doc).messages.len() > 0,
{
    if let Some(s) = opt_text(yaml_get(doc, "major_frame"@)) {
        if let Some(major) = duration_ms(s) {
            if let Some(ps) = opt_items(yaml_get(doc, "partitions"@)) {
                let m = partition_messages(ps, major) + overlap_messages(sorted_windows(ps))
                    + controller_messages(ps) + channel_messages(doc, ps);
                if m.len() == 0 {
                    assert(m.push(looks_good_message()) =~= seq![looks_good_message()]);
                }
            }
        }
    }
}

} // verus!
