//! The typed message model of the protocol and the local device-state
//! mirror.
//!
//! A raw payload read from the wire is split at blank lines into blocks;
//! each block is a header line plus body lines.  The header picks the
//! message kind, the body lines are parsed by per-kind rules, and the
//! resulting messages are applied in order to a [`VideoHub`] state mirror.

use vstd::prelude::*;

use crate::text::{
    find_sub, is_digit_char, is_digits, is_digits_range, parse_i32, parse_u64, spec_dec_str,
    spec_find, spec_lines, spec_parse_int, spec_parse_uint, spec_split, spec_starts_with,
    spec_strip_cr,
    split_lines, split_str, starts_with, str_eq, strings_view, strs_view, u64_to_string,
};

pub mod hub_json;

pub use hub_json::{
    label_set_message, route_set_message, VideoHubDump, VideoHubLabel, VideoHubLabelType,
    VideoHubRoute,
};

verus! {

/// The error kinds that the protocol core can report.
#[derive(Debug)]
pub enum HubError {
    /// A field inside a block failed to parse as the grammar demands.
    ParseFailed,
    /// The message kind has no wire form to send.
    NotSerializable,
    /// The device's hello contained no block at all.
    EmptyHello,
    /// The device's hello contained no device-information block.
    MissingDeviceInfo,
    /// The device reported different input and output port counts.
    MismatchedPortCounts,
    /// A label or route index lay outside the current state arrays.
    IndexOutOfBounds,
    /// A dump holds more ports than the connected device.
    DumpTooLarge,
    /// The device answered a command without an ACK, or with a NACK;
    /// carries the raw response text.
    NotAcknowledged(String),
}

/// One label entry: a port index and the name to show for it.
#[derive(Debug)]
pub struct Label {
    pub name: String,
    pub index: usize,
}

/// Mathematical value of a [`Label`].
pub ghost struct LabelView {
    pub name: Seq<char>,
    pub index: int,
}

impl View for Label {
    type V = LabelView;

    open spec fn view(&self) -> LabelView {
        LabelView { name: self.name@, index: self.index as int }
    }
}

/// The body of an input-labels or output-labels block.
#[derive(Debug)]
pub struct LabelList {
    pub labels: Vec<Label>,
}

/// View of a sequence of labels as their mathematical values.
pub open spec fn labels_view(s: Seq<Label>) -> Seq<LabelView> {
    s.map_values(|l: Label| l@)
}

impl View for LabelList {
    type V = Seq<LabelView>;

    open spec fn view(&self) -> Seq<LabelView> {
        labels_view(self.labels@)
    }
}

/// One route entry: the output port `destination` is fed by the input
/// port `source`.
#[derive(Debug)]
pub struct Route {
    pub destination: usize,
    pub source: usize,
}

/// Mathematical value of a [`Route`].
pub ghost struct RouteView {
    pub destination: int,
    pub source: int,
}

impl View for Route {
    type V = RouteView;

    open spec fn view(&self) -> RouteView {
        RouteView { destination: self.destination as int, source: self.source as int }
    }
}

/// The body of a video-output-routing block.
#[derive(Debug)]
pub struct VideoRouting {
    pub routes: Vec<Route>,
}

/// View of a sequence of routes as their mathematical values.
pub open spec fn routes_view(s: Seq<Route>) -> Seq<RouteView> {
    s.map_values(|r: Route| r@)
}

impl View for VideoRouting {
    type V = Seq<RouteView>;

    open spec fn view(&self) -> Seq<RouteView> {
        routes_view(self.routes@)
    }
}

/// The protocol preamble block; it carries only a version number, kept
/// here as its text.
#[derive(Debug)]
pub struct Preamble {
    pub version: String,
}

impl View for Preamble {
    type V = Seq<char>;

    open spec fn view(&self) -> Seq<char> {
        self.version@
    }
}

/// The device-information block of the hello.
#[derive(Debug)]
pub struct DeviceInfo {
    pub present: String,
    pub model: String,
    pub uuid: String,
    pub input_count: usize,
    pub output_count: usize,
}

/// Mathematical value of a [`DeviceInfo`].
pub ghost struct DeviceInfoView {
    pub present: Seq<char>,
    pub model: Seq<char>,
    pub uuid: Seq<char>,
    pub input_count: int,
    pub output_count: int,
}

impl View for DeviceInfo {
    type V = DeviceInfoView;

    open spec fn view(&self) -> DeviceInfoView {
        DeviceInfoView {
            present: self.present@,
            model: self.model@,
            uuid: self.uuid@,
            input_count: self.input_count as int,
            output_count: self.output_count as int,
        }
    }
}

/// The closed set of message kinds a block can parse into.
#[derive(Debug)]
pub enum HubMessage {
    Preamble(Preamble),
    DeviceInfo(DeviceInfo),
    InputLabels(LabelList),
    OutputLabels(LabelList),
    VideoRouting(VideoRouting),
    PreludeEnd,
    Acknowledge,
    NoAcknowledge,
    Unrecognized,
}

/// Mathematical value of a [`HubMessage`].
pub ghost enum MessageView {
    Preamble(Seq<char>),
    DeviceInfo(DeviceInfoView),
    InputLabels(Seq<LabelView>),
    OutputLabels(Seq<LabelView>),
    VideoRouting(Seq<RouteView>),
    PreludeEnd,
    Acknowledge,
    NoAcknowledge,
    Unrecognized,
}

impl View for HubMessage {
    type V = MessageView;

    open spec fn view(&self) -> MessageView {
        match self {
            HubMessage::Preamble(p) => MessageView::Preamble(p@),
            HubMessage::DeviceInfo(d) => MessageView::DeviceInfo(d@),
            HubMessage::InputLabels(l) => MessageView::InputLabels(l@),
            HubMessage::OutputLabels(l) => MessageView::OutputLabels(l@),
            HubMessage::VideoRouting(r) => MessageView::VideoRouting(r@),
            HubMessage::PreludeEnd => MessageView::PreludeEnd,
            HubMessage::Acknowledge => MessageView::Acknowledge,
            HubMessage::NoAcknowledge => MessageView::NoAcknowledge,
            HubMessage::Unrecognized => MessageView::Unrecognized,
        }
    }
}

/// View of a sequence of messages as their mathematical values.
pub open spec fn msgs_view(s: Seq<HubMessage>) -> Seq<MessageView> {
    s.map_values(|m: HubMessage| m@)
}

/// Version text: digits with at most one dot between digit runs.
pub open spec fn is_version_text(s: Seq<char>) -> bool {
    let d = spec_find(s, seq!['.']);
    if d < 0 {
        is_digits(s)
    } else {
        is_digits(s.subrange(0, d)) && is_digits(s.subrange(d + 1, s.len() as int))
    }
}

/// The version text carried by one preamble body line, when the line is
/// well formed.
pub open spec fn spec_version_line(l: Seq<char>) -> Option<Seq<char>> {
    let p = "Version: "@;
    if spec_starts_with(l, p) {
        let rest = l.subrange(p.len() as int, l.len() as int);
        if is_version_text(rest) {
            Some(rest)
        } else {
            None
        }
    } else {
        None
    }
}

/// Folds preamble body lines: a malformed line is skipped, the last well
/// formed version line wins.
pub open spec fn spec_preamble_fold(lines: Seq<Seq<char>>, acc: Seq<char>) -> Seq<char>
    decreases lines.len(),
{
    if lines.len() == 0 {
        acc
    } else {
        let acc2 = match spec_version_line(lines[0]) {
            Some(v) => v,
            None => acc,
        };
        spec_preamble_fold(lines.drop_first(), acc2)
    }
}

impl Preamble {
    /// Parses the body of a preamble block.  Malformed lines are skipped;
    /// of repeated version lines the last wins.
    pub fn parse(lines: &Vec<&str>) -> (r: Result<HubMessage, HubError>)
        ensures
            r matches Ok(m) && m@ == MessageView::Preamble(
                spec_preamble_fold(strs_view(lines@), Seq::<char>::empty()),
            ),
    {
        let mut version = String::new();
        let mut i: usize = 0;
        proof {
            assert(strs_view(lines@).skip(0) =~= strs_view(lines@));
        }
        while i < lines.len()
            invariant
                i <= lines.len(),
                spec_preamble_fold(strs_view(lines@).skip(i as int), version@)
                    == spec_preamble_fold(strs_view(lines@), Seq::<char>::empty()),
            decreases lines.len() - i,
        {
            let ghost pre = strs_view(lines@).skip(i as int);
            let line: &str = lines[i];
            proof {
                reveal_strlit("Version: ");
                reveal_strlit(".");
                assert((".")@ =~= seq!['.']);
                assert(pre[0] == line@);
                assert(pre.drop_first() =~= strs_view(lines@).skip(i + 1));
            }
            if starts_with(line, "Version: ") {
                let llen = line.unicode_len();
                let rest = line.substring_char(9, llen);
                let ok = match find_sub(rest, ".") {
                    Some(d) => {
                        let rlen = rest.unicode_len();
                        proof {
                            crate::text::lemma_find_first(rest@, (".")@);
                        }
                        is_digits_range(rest, 0, d) && is_digits_range(rest, d + 1, rlen)
                    },
                    None => {
                        let rlen = rest.unicode_len();
                        is_digits_range(rest, 0, rlen)
                    },
                };
                proof {
                    assert(rest@.subrange(0, rest@.len() as int) =~= rest@);
                    assert(ok == is_version_text(rest@));
                }
                if ok {
                    version = rest.to_owned();
                }
            }
            i = i + 1;
        }
        proof {
            assert(strs_view(lines@).skip(lines@.len() as int) =~= Seq::<Seq<char>>::empty());
        }
        Ok(HubMessage::Preamble(Preamble { version }))
    }
}

/// An all-empty device-information value, the starting point of the fold.
pub open spec fn spec_device_info_empty() -> DeviceInfoView {
    DeviceInfoView {
        present: Seq::<char>::empty(),
        model: Seq::<char>::empty(),
        uuid: Seq::<char>::empty(),
        input_count: 0,
        output_count: 0,
    }
}

/// Folds device-information body lines over an accumulator.  A line
/// without exactly one `": "` separator, or with an unknown key, is
/// skipped; a port-count value that does not parse is an error (`None`).
pub open spec fn spec_device_info_fold(lines: Seq<Seq<char>>, acc: DeviceInfoView) -> Option<
    DeviceInfoView,
>
    decreases lines.len(),
{
    if lines.len() == 0 {
        Some(acc)
    } else {
        let l = lines[0];
        let rest = lines.drop_first();
        let parts = spec_split(l, seq![':', ' ']);
        if parts.len() != 2 {
            spec_device_info_fold(rest, acc)
        } else if spec_starts_with(l, "Device present: "@) {
            spec_device_info_fold(rest, DeviceInfoView { present: parts[1], ..acc })
        } else if spec_starts_with(l, "Model name: "@) {
            spec_device_info_fold(rest, DeviceInfoView { model: parts[1], ..acc })
        } else if spec_starts_with(l, "Video inputs: "@) {
            match spec_parse_uint(parts[1]) {
                Some(v) => if v > usize::MAX {
                    None
                } else {
                    spec_device_info_fold(rest, DeviceInfoView { input_count: v, ..acc })
                },
                None => None,
            }
        } else if spec_starts_with(l, "Video outputs: "@) {
            match spec_parse_uint(parts[1]) {
                Some(v) => if v > usize::MAX {
                    None
                } else {
                    spec_device_info_fold(rest, DeviceInfoView { output_count: v, ..acc })
                },
                None => None,
            }
        } else if spec_starts_with(l, "Unique ID: "@) {
            spec_device_info_fold(rest, DeviceInfoView { uuid: parts[1], ..acc })
        } else {
            spec_device_info_fold(rest, acc)
        }
    }
}

impl DeviceInfo {
    /// Parses the body of a device-information block: `"<Key>: <Value>"`
    /// lines with the recognized keys; other lines are skipped; a
    /// port-count value that does not parse is an error.
    pub fn parse(lines: &Vec<&str>) -> (r: Result<HubMessage, HubError>)
        ensures
            match spec_device_info_fold(strs_view(lines@), spec_device_info_empty()) {
                Some(di) => r matches Ok(m) && m@ == MessageView::DeviceInfo(di),
                None => r matches Err(e) && e is ParseFailed,
            },
    {
        let mut info = DeviceInfo {
            present: String::new(),
            model: String::new(),
            uuid: String::new(),
            input_count: 0,
            output_count: 0,
        };
        let mut i: usize = 0;
        proof {
            assert(strs_view(lines@).skip(0) =~= strs_view(lines@));
        }
        while i < lines.len()
            invariant
                i <= lines.len(),
                spec_device_info_fold(strs_view(lines@).skip(i as int), info@)
                    == spec_device_info_fold(strs_view(lines@), spec_device_info_empty()),
            decreases lines.len() - i,
        {
            let ghost pre = strs_view(lines@).skip(i as int);
            let line: &str = lines[i];
            proof {
                reveal_strlit(": ");
                assert((": ")@ =~= seq![':', ' ']);
                assert(pre[0] == line@);
                assert(pre.drop_first() =~= strs_view(lines@).skip(i + 1));
            }
            let parts = split_str(line, ": ");
            if parts.len() == 2 {
                if starts_with(line, "Device present: ") {
                    info.present = parts[1].clone();
                } else if starts_with(line, "Model name: ") {
                    info.model = parts[1].clone();
                } else if starts_with(line, "Video inputs: ") {
                    match parse_u64(parts[1].as_str()) {
                        Some(v) if v <= usize::MAX as u64 => {
                            info.input_count = v as usize;
                        },
                        _ => {
                            return Err(HubError::ParseFailed);
                        },
                    }
                } else if starts_with(line, "Video outputs: ") {
                    match parse_u64(parts[1].as_str()) {
                        Some(v) if v <= usize::MAX as u64 => {
                            info.output_count = v as usize;
                        },
                        _ => {
                            return Err(HubError::ParseFailed);
                        },
                    }
                } else if starts_with(line, "Unique ID: ") {
                    info.uuid = parts[1].clone();
                }
            }
            i = i + 1;
        }
        proof {
            assert(strs_view(lines@).skip(lines@.len() as int) =~= Seq::<Seq<char>>::empty());
        }
        Ok(HubMessage::DeviceInfo(info))
    }
}

/// Parses label body lines.  A line with no space ends the block early;
/// an index that does not read as a 32-bit integer is an error; a
/// negative index drops just its line.
pub open spec fn spec_parse_labels(lines: Seq<Seq<char>>) -> Option<Seq<LabelView>>
    decreases lines.len(),
{
    if lines.len() == 0 {
        Some(Seq::<LabelView>::empty())
    } else {
        let l = lines[0];
        let d = spec_find(l, seq![' ']);
        if d < 0 {
            Some(Seq::<LabelView>::empty())
        } else {
            match spec_parse_int(l.subrange(0, d)) {
                Some(v) => if v < i32::MIN || v > i32::MAX {
                    None
                } else if v < 0 {
                    spec_parse_labels(lines.drop_first())
                } else {
                    match spec_parse_labels(lines.drop_first()) {
                        Some(t) => Some(
                            seq![LabelView { name: l.subrange(d + 1, l.len() as int), index: v }]
                                + t,
                        ),
                        None => None,
                    }
                },
                None => None,
            }
        }
    }
}

impl LabelList {
    /// Parses the body of a label block: `"<index> <name>"` lines, split
    /// at the first space.  The first line without a space stops the
    /// whole block; a negative index is skipped; a non-integer index is
    /// an error.
    pub fn parse(lines: &Vec<&str>) -> (r: Result<LabelList, HubError>)
        ensures
            match spec_parse_labels(strs_view(lines@)) {
                Some(es) => r matches Ok(ll) && ll@ == es,
                None => r matches Err(e) && e is ParseFailed,
            },
    {
        let mut labels: Vec<Label> = Vec::new();
        let mut i: usize = 0;
        proof {
            assert(strs_view(lines@).skip(0) =~= strs_view(lines@));
            assert(labels_view(labels@) + spec_parse_labels(strs_view(lines@))->Some_0
                =~= spec_parse_labels(strs_view(lines@))->Some_0);
        }
        loop
            invariant_except_break
                i <= lines.len(),
                spec_parse_labels(strs_view(lines@)) == (match spec_parse_labels(
                    strs_view(lines@).skip(i as int),
                ) {
                    Some(t) => Some(labels_view(labels@) + t),
                    None => None::<Seq<LabelView>>,
                }),
            ensures
                spec_parse_labels(strs_view(lines@)) == Some(labels_view(labels@)),
            decreases lines.len() - i,
        {
            if i >= lines.len() {
                proof {
                    assert(strs_view(lines@).skip(i as int) =~= Seq::<Seq<char>>::empty());
                    assert(labels_view(labels@) + Seq::<LabelView>::empty() =~= labels_view(
                        labels@,
                    ));
                }
                break ;
            }
            let ghost pre = strs_view(lines@).skip(i as int);
            let line: &str = lines[i];
            proof {
                reveal_strlit(" ");
                assert((" ")@ =~= seq![' ']);
                assert(pre[0] == line@);
                assert(pre.drop_first() =~= strs_view(lines@).skip(i + 1));
            }
            match find_sub(line, " ") {
                None => {
                    proof {
                        assert(spec_parse_labels(pre) == Some(Seq::<LabelView>::empty()));
                        assert(labels_view(labels@) + Seq::<LabelView>::empty() =~= labels_view(
                            labels@,
                        ));
                    }
                    break ;
                },
                Some(d) => {
                    proof {
                        crate::text::lemma_find_first(line@, (" ")@);
                    }
                    let llen = line.unicode_len();
                    let idx_txt = line.substring_char(0, d);
                    match parse_i32(idx_txt) {
                        None => {
                            return Err(HubError::ParseFailed);
                        },
                        Some(v) => {
                            if v >= 0 {
                                let ghost old_labels = labels@;
                                let name = line.substring_char(d + 1, llen).to_owned();
                                labels.push(Label { name, index: v as usize });
                                proof {
                                    let lv = LabelView {
                                        name: line@.subrange(d + 1, line@.len() as int),
                                        index: v as int,
                                    };
                                    assert(labels_view(labels@) =~= labels_view(old_labels)
                                        + seq![lv]);
                                    if spec_parse_labels(strs_view(lines@).skip(i + 1)) is Some {
                                        let t = spec_parse_labels(
                                            strs_view(lines@).skip(i + 1),
                                        )->Some_0;
                                        assert((labels_view(old_labels) + (seq![lv] + t))
                                            =~= (labels_view(labels@) + t));
                                    }
                                }
                            }
                        },
                    }
                },
            }
            i = i + 1;
        }
        Ok(LabelList { labels })
    }
}

/// Parses routing body lines.  Each line is split at spaces; the first
/// two fields must read as 32-bit integers; a line with a negative field
/// is skipped; fewer than two fields, or a non-integer field, is an
/// error.
pub open spec fn spec_parse_routes(lines: Seq<Seq<char>>) -> Option<Seq<RouteView>>
    decreases lines.len(),
{
    if lines.len() == 0 {
        Some(Seq::<RouteView>::empty())
    } else {
        let l = lines[0];
        let parts = spec_split(l, seq![' ']);
        if parts.len() < 2 {
            None
        } else {
            match spec_parse_int(parts[1]) {
                Some(sv) => if sv < i32::MIN || sv > i32::MAX {
                    None
                } else {
                    match spec_parse_int(parts[0]) {
                        Some(dv) => if dv < i32::MIN || dv > i32::MAX {
                            None
                        } else if sv < 0 || dv < 0 {
                            spec_parse_routes(lines.drop_first())
                        } else {
                            match spec_parse_routes(lines.drop_first()) {
                                Some(t) => Some(
                                    seq![RouteView { destination: dv, source: sv }] + t,
                                ),
                                None => None,
                            }
                        },
                        None => None,
                    }
                },
                None => None,
            }
        }
    }
}

impl VideoRouting {
    /// Parses the body of a routing block: `"<destination> <source>"`
    /// lines.  A line where either field is negative is skipped; a
    /// malformed field is an error.
    pub fn parse(lines: &Vec<&str>) -> (r: Result<HubMessage, HubError>)
        ensures
            match spec_parse_routes(strs_view(lines@)) {
                Some(rs) => r matches Ok(m) && m@ == MessageView::VideoRouting(rs),
                None => r matches Err(e) && e is ParseFailed,
            },
    {
        let mut routes: Vec<Route> = Vec::new();
        let mut i: usize = 0;
        proof {
            assert(strs_view(lines@).skip(0) =~= strs_view(lines@));
            assert(routes_view(routes@) + spec_parse_routes(strs_view(lines@))->Some_0
                =~= spec_parse_routes(strs_view(lines@))->Some_0);
        }
        while i < lines.len()
            invariant
                i <= lines.len(),
                spec_parse_routes(strs_view(lines@)) == (match spec_parse_routes(
                    strs_view(lines@).skip(i as int),
                ) {
                    Some(t) => Some(routes_view(routes@) + t),
                    None => None::<Seq<RouteView>>,
                }),
            decreases lines.len() - i,
        {
            let ghost pre = strs_view(lines@).skip(i as int);
            let line: &str = lines[i];
            proof {
                reveal_strlit(" ");
                assert((" ")@ =~= seq![' ']);
                assert(pre[0] == line@);
                assert(pre.drop_first() =~= strs_view(lines@).skip(i + 1));
            }
            let parts = split_str(line, " ");
            if parts.len() < 2 {
                return Err(HubError::ParseFailed);
            }
            let sv = match parse_i32(parts[1].as_str()) {
                Some(sv) => sv,
                None => {
                    return Err(HubError::ParseFailed);
                },
            };
            let dv = match parse_i32(parts[0].as_str()) {
                Some(dv) => dv,
                None => {
                    return Err(HubError::ParseFailed);
                },
            };
            if sv >= 0 && dv >= 0 {
                let ghost old_routes = routes@;
                routes.push(Route { destination: dv as usize, source: sv as usize });
                proof {
                    let rv = RouteView { destination: dv as int, source: sv as int };
                    assert(routes_view(routes@) =~= routes_view(old_routes) + seq![rv]);
                    if spec_parse_routes(strs_view(lines@).skip(i + 1)) is Some {
                        let t = spec_parse_routes(strs_view(lines@).skip(i + 1))->Some_0;
                        assert((routes_view(old_routes) + (seq![rv] + t)) =~= (routes_view(
                            routes@,
                        ) + t));
                    }
                }
            }
            i = i + 1;
        }
        proof {
            assert(strs_view(lines@).skip(i as int) =~= Seq::<Seq<char>>::empty());
            assert(routes_view(routes@) + Seq::<RouteView>::empty() =~= routes_view(routes@));
        }
        Ok(HubMessage::VideoRouting(VideoRouting { routes }))
    }
}

/// The wire text of a label list: one `"<index> <name>"` line per entry,
/// each newline-terminated.
pub open spec fn spec_label_lines(ls: Seq<LabelView>) -> Seq<char>
    decreases ls.len(),
{
    if ls.len() == 0 {
        Seq::<char>::empty()
    } else {
        spec_label_lines(ls.drop_last()) + spec_dec_str(ls.last().index) + seq![' ']
            + ls.last().name + seq!['\n']
    }
}

impl LabelList {
    /// Writes the list in wire form, one line per entry.
    pub fn serialize(&self) -> (r: String)
        ensures
            r@ == spec_label_lines(self@),
    {
        let mut out = String::new();
        let mut i: usize = 0;
        while i < self.labels.len()
            invariant
                i <= self.labels.len(),
                out@ == spec_label_lines(self@.take(i as int)),
            decreases self.labels.len() - i,
        {
            let num = u64_to_string(self.labels[i].index as u64);
            out.append(num.as_str());
            out.append(" ");
            out.append(self.labels[i].name.as_str());
            out.append("\n");
            proof {
                reveal_strlit(" ");
                reveal_strlit("\n");
                assert((" ")@ =~= seq![' ']);
                assert(("\n")@ =~= seq!['\n']);
                let prefix = self@.take(i + 1);
                assert(prefix.drop_last() =~= self@.take(i as int));
                assert(prefix.last() == self.labels@[i as int]@);
                assert(out@ =~= spec_label_lines(prefix));
            }
            i = i + 1;
        }
        proof {
            assert(self@.take(self.labels@.len() as int) =~= self@);
        }
        out
    }
}

/// The wire text of a routing list: one `"<destination> <source>"` line
/// per entry, each newline-terminated.
pub open spec fn spec_route_lines(rs: Seq<RouteView>) -> Seq<char>
    decreases rs.len(),
{
    if rs.len() == 0 {
        Seq::<char>::empty()
    } else {
        spec_route_lines(rs.drop_last()) + spec_dec_str(rs.last().destination) + seq![' ']
            + spec_dec_str(rs.last().source) + seq!['\n']
    }
}

impl VideoRouting {
    /// Writes the routing list in wire form, one line per entry.
    pub fn serialize(&self) -> (r: String)
        ensures
            r@ == spec_route_lines(self@),
    {
        let mut out = String::new();
        let mut i: usize = 0;
        while i < self.routes.len()
            invariant
                i <= self.routes.len(),
                out@ == spec_route_lines(self@.take(i as int)),
            decreases self.routes.len() - i,
        {
            let dnum = u64_to_string(self.routes[i].destination as u64);
            let snum = u64_to_string(self.routes[i].source as u64);
            out.append(dnum.as_str());
            out.append(" ");
            out.append(snum.as_str());
            out.append("\n");
            proof {
                reveal_strlit(" ");
                reveal_strlit("\n");
                assert((" ")@ =~= seq![' ']);
                assert(("\n")@ =~= seq!['\n']);
                let prefix = self@.take(i + 1);
                assert(prefix.drop_last() =~= self@.take(i as int));
                assert(prefix.last() == self.routes@[i as int]@);
                assert(out@ =~= spec_route_lines(prefix));
            }
            i = i + 1;
        }
        proof {
            assert(self@.take(self.routes@.len() as int) =~= self@);
        }
        out
    }
}

/// The header line that names each message kind on the wire.  The
/// unrecognized kind has none.
pub open spec fn spec_header(m: MessageView) -> Seq<char> {
    match m {
        MessageView::Preamble(_) => "PROTOCOL PREAMBLE:"@,
        MessageView::DeviceInfo(_) => "VIDEOHUB DEVICE:"@,
        MessageView::InputLabels(_) => "INPUT LABELS:"@,
        MessageView::OutputLabels(_) => "OUTPUT LABELS:"@,
        MessageView::VideoRouting(_) => "VIDEO OUTPUT ROUTING:"@,
        MessageView::PreludeEnd => "END PRELUDE:"@,
        MessageView::Acknowledge => "ACK"@,
        MessageView::NoAcknowledge => "NACK"@,
        MessageView::Unrecognized => Seq::<char>::empty(),
    }
}

/// The full wire text of a command: header line, body lines, and the
/// closing blank line.  Only the three mutating kinds have one.
pub open spec fn spec_wire(m: MessageView) -> Option<Seq<char>> {
    match m {
        MessageView::InputLabels(ls) => Some(
            spec_header(m) + seq!['\n'] + spec_label_lines(ls) + seq!['\n'],
        ),
        MessageView::OutputLabels(ls) => Some(
            spec_header(m) + seq!['\n'] + spec_label_lines(ls) + seq!['\n'],
        ),
        MessageView::VideoRouting(rs) => Some(
            spec_header(m) + seq!['\n'] + spec_route_lines(rs) + seq!['\n'],
        ),
        _ => None,
    }
}

impl HubMessage {
    /// The header line of this message kind.
    pub fn get_header(&self) -> (r: String)
        ensures
            r@ == spec_header(self@),
    {
        match self {
            HubMessage::Preamble(_) => String::from_str("PROTOCOL PREAMBLE:"),
            HubMessage::DeviceInfo(_) => String::from_str("VIDEOHUB DEVICE:"),
            HubMessage::InputLabels(_) => String::from_str("INPUT LABELS:"),
            HubMessage::OutputLabels(_) => String::from_str("OUTPUT LABELS:"),
            HubMessage::VideoRouting(_) => String::from_str("VIDEO OUTPUT ROUTING:"),
            HubMessage::PreludeEnd => String::from_str("END PRELUDE:"),
            HubMessage::Acknowledge => String::from_str("ACK"),
            HubMessage::NoAcknowledge => String::from_str("NACK"),
            HubMessage::Unrecognized => String::new(),
        }
    }

    /// The full wire text to send for this message: header, body, and a
    /// final blank line.  Message kinds that are never sent have none.
    pub fn to_wire(&self) -> (r: Result<String, HubError>)
        ensures
            match spec_wire(self@) {
                Some(w) => r matches Ok(s) && s@ == w,
                None => r matches Err(e) && e is NotSerializable,
            },
    {
        let body = match self {
            HubMessage::InputLabels(ls) => ls.serialize(),
            HubMessage::OutputLabels(ls) => ls.serialize(),
            HubMessage::VideoRouting(rs) => rs.serialize(),
            _ => {
                return Err(HubError::NotSerializable);
            },
        };
        let mut out = self.get_header();
        out.append("\n");
        out.append(body.as_str());
        out.append("\n");
        proof {
            reveal_strlit("\n");
            assert(("\n")@ =~= seq!['\n']);
            assert(out@ =~= spec_wire(self@)->Some_0);
        }
        Ok(out)
    }
}

/// The message a single block yields, or nothing when the block is empty,
/// its header is unknown, or its body is malformed.
pub open spec fn spec_parse_block(b: Seq<char>) -> Option<MessageView> {
    let lines = spec_lines(b);
    if lines.len() == 0 {
        None
    } else {
        let header = lines[0];
        let body = lines.drop_first();
        if header == "PROTOCOL PREAMBLE:"@ {
            Some(MessageView::Preamble(spec_preamble_fold(body, Seq::<char>::empty())))
        } else if header == "VIDEOHUB DEVICE:"@ {
            match spec_device_info_fold(body, spec_device_info_empty()) {
                Some(di) => Some(MessageView::DeviceInfo(di)),
                None => None,
            }
        } else if header == "INPUT LABELS:"@ {
            match spec_parse_labels(body) {
                Some(es) => Some(MessageView::InputLabels(es)),
                None => None,
            }
        } else if header == "OUTPUT LABELS:"@ {
            match spec_parse_labels(body) {
                Some(es) => Some(MessageView::OutputLabels(es)),
                None => None,
            }
        } else if header == "VIDEO OUTPUT LOCKS:"@ {
            Some(MessageView::Unrecognized)
        } else if header == "VIDEO OUTPUT ROUTING:"@ {
            match spec_parse_routes(body) {
                Some(rs) => Some(MessageView::VideoRouting(rs)),
                None => None,
            }
        } else if header == "CONFIGURATION:"@ {
            Some(MessageView::Unrecognized)
        } else if header == "END PRELUDE:"@ {
            Some(MessageView::PreludeEnd)
        } else if header == "ACK"@ {
            Some(MessageView::Acknowledge)
        } else if header == "NACK"@ {
            Some(MessageView::NoAcknowledge)
        } else {
            None
        }
    }
}

/// The messages of a sequence of blocks, dropped blocks left out.
pub open spec fn spec_parse_chunks(chunks: Seq<Seq<char>>) -> Seq<MessageView>
    decreases chunks.len(),
{
    if chunks.len() == 0 {
        Seq::<MessageView>::empty()
    } else {
        match spec_parse_block(chunks[0]) {
            Some(m) => seq![m] + spec_parse_chunks(chunks.drop_first()),
            None => spec_parse_chunks(chunks.drop_first()),
        }
    }
}

/// The ordered messages of a whole payload: blocks are cut at blank
/// lines, then parsed one by one.
pub open spec fn spec_parse_blocks(msg: Seq<char>) -> Seq<MessageView> {
    spec_parse_chunks(spec_split(msg, seq!['\n', '\n']))
}

impl HubMessage {
    /// Splits a raw payload into blocks at blank lines and parses each
    /// block.  Empty blocks, unknown headers and malformed blocks are
    /// dropped; everything else appears in order.
    pub fn parse_blocks(msg: &str) -> (r: Vec<HubMessage>)
        ensures
            msgs_view(r@) == spec_parse_blocks(msg@),
    {
        proof {
            reveal_strlit("\n\n");
            assert(("\n\n")@ =~= seq!['\n', '\n']);
        }
        let chunks = split_str(msg, "\n\n");
        let ghost cv = strings_view(chunks@);
        let mut out: Vec<HubMessage> = Vec::new();
        let mut i: usize = 0;
        proof {
            assert(cv.skip(0) =~= cv);
            assert(msgs_view(out@) + spec_parse_chunks(cv) =~= spec_parse_chunks(cv));
        }
        while i < chunks.len()
            invariant
                i <= chunks.len(),
                cv == strings_view(chunks@),
                spec_parse_blocks(msg@) == msgs_view(out@) + spec_parse_chunks(
                    cv.skip(i as int),
                ),
            decreases chunks.len() - i,
        {
            let ghost pre = cv.skip(i as int);
            let block: &str = chunks[i].as_str();
            proof {
                assert(pre[0] == block@);
                assert(pre.drop_first() =~= cv.skip(i + 1));
            }
            let lines_vec = split_lines(block);
            let ghost old_out = out@;
            if lines_vec.len() >= 1 {
                let header: &str = lines_vec[0].as_str();
                let mut body: Vec<&str> = Vec::new();
                let mut j: usize = 1;
                while j < lines_vec.len()
                    invariant
                        1 <= j <= lines_vec@.len(),
                        body@.len() == j - 1,
                        forall|k: int| 0 <= k < j - 1 ==> (#[trigger] body@[k])@ == lines_vec@[
                            k + 1
                        ]@,
                    decreases lines_vec.len() - j,
                {
                    body.push(lines_vec[j].as_str());
                    j = j + 1;
                }
                proof {
                    assert(strs_view(body@) =~= spec_lines(block@).drop_first());
                    assert(header@ == spec_lines(block@)[0]);
                }
                if str_eq(header, "PROTOCOL PREAMBLE:") {
                    match Preamble::parse(&body) {
                        Ok(m) => out.push(m),
                        Err(_) => (),
                    }
                } else if str_eq(header, "VIDEOHUB DEVICE:") {
                    match DeviceInfo::parse(&body) {
                        Ok(m) => out.push(m),
                        Err(_) => (),
                    }
                } else if str_eq(header, "INPUT LABELS:") {
                    match LabelList::parse(&body) {
                        Ok(ll) => out.push(HubMessage::InputLabels(ll)),
                        Err(_) => (),
                    }
                } else if str_eq(header, "OUTPUT LABELS:") {
                    match LabelList::parse(&body) {
                        Ok(ll) => out.push(HubMessage::OutputLabels(ll)),
                        Err(_) => (),
                    }
                } else if str_eq(header, "VIDEO OUTPUT LOCKS:") {
                    out.push(HubMessage::Unrecognized);
                } else if str_eq(header, "VIDEO OUTPUT ROUTING:") {
                    match VideoRouting::parse(&body) {
                        Ok(m) => out.push(m),
                        Err(_) => (),
                    }
                } else if str_eq(header, "CONFIGURATION:") {
                    out.push(HubMessage::Unrecognized);
                } else if str_eq(header, "END PRELUDE:") {
                    out.push(HubMessage::PreludeEnd);
                } else if str_eq(header, "ACK") {
                    out.push(HubMessage::Acknowledge);
                } else if str_eq(header, "NACK") {
                    out.push(HubMessage::NoAcknowledge);
                }
            }
            proof {
                match spec_parse_block(pre[0]) {
                    Some(m) => {
                        assert(msgs_view(out@) =~= msgs_view(old_out) + seq![m]);
                        assert((msgs_view(old_out) + (seq![m] + spec_parse_chunks(cv.skip(i + 1))))
                            =~= (msgs_view(out@) + spec_parse_chunks(cv.skip(i + 1))));
                    },
                    None => {
                        assert(out@ == old_out);
                    },
                }
            }
            i = i + 1;
        }
        proof {
            assert(cv.skip(i as int) =~= Seq::<Seq<char>>::empty());
            assert(msgs_view(out@) + Seq::<MessageView>::empty() =~= msgs_view(out@));
        }
        out
    }
}

/// View of a sequence of machine words as integers.
pub open spec fn usizes_view(s: Seq<usize>) -> Seq<int> {
    s.map_values(|x: usize| x as int)
}

/// The client's local mirror of the device: model name, port counts,
/// label arrays and the routing table.
#[derive(Debug)]
pub struct VideoHub {
    model: String,
    input_count: usize,
    output_count: usize,
    input_labels: Vec<String>,
    output_labels: Vec<String>,
    video_routes: Vec<usize>,
}

/// Mathematical value of a [`VideoHub`].
pub ghost struct HubView {
    pub model: Seq<char>,
    pub input_count: int,
    pub output_count: int,
    pub input_labels: Seq<Seq<char>>,
    pub output_labels: Seq<Seq<char>>,
    pub video_routes: Seq<int>,
}

impl HubView {
    /// All three arrays are sized to the input count, as every
    /// device-information application leaves them.
    pub open spec fn wf(self) -> bool {
        &&& self.input_labels.len() == self.input_count
        &&& self.output_labels.len() == self.input_count
        &&& self.video_routes.len() == self.input_count
        &&& 0 <= self.input_count <= usize::MAX
        &&& 0 <= self.output_count <= usize::MAX
    }
}

impl View for VideoHub {
    type V = HubView;

    closed spec fn view(&self) -> HubView {
        HubView {
            model: self.model@,
            input_count: self.input_count as int,
            output_count: self.output_count as int,
            input_labels: strings_view(self.input_labels@),
            output_labels: strings_view(self.output_labels@),
            video_routes: usizes_view(self.video_routes@),
        }
    }
}

/// The zero-valued state a session starts from.
pub open spec fn spec_hub_empty() -> HubView {
    HubView {
        model: Seq::<char>::empty(),
        input_count: 0,
        output_count: 0,
        input_labels: Seq::<Seq<char>>::empty(),
        output_labels: Seq::<Seq<char>>::empty(),
        video_routes: Seq::<int>::empty(),
    }
}

/// Resizing a label array: a shorter target truncates, a longer one pads
/// with empty names.
pub open spec fn spec_resize_seqs(v: Seq<Seq<char>>, n: int) -> Seq<Seq<char>> {
    if n <= v.len() {
        v.take(if n < 0 {
            0
        } else {
            n
        })
    } else {
        v + Seq::new((n - v.len()) as nat, |k: int| Seq::<char>::empty())
    }
}

/// Resizing the routing array: a shorter target truncates, a longer one
/// pads with routes from input zero.
pub open spec fn spec_resize_ints(v: Seq<int>, n: int) -> Seq<int> {
    if n <= v.len() {
        v.take(if n < 0 {
            0
        } else {
            n
        })
    } else {
        v + Seq::new((n - v.len()) as nat, |k: int| 0int)
    }
}

/// Every entry's index fits the array of the given length.
pub open spec fn labels_in_bounds(es: Seq<LabelView>, len: int) -> bool {
    forall|i: int| 0 <= i < es.len() ==> 0 <= (#[trigger] es[i]).index < len
}

/// Writes label entries in order; a later entry for the same index wins.
pub open spec fn spec_write_labels(labels: Seq<Seq<char>>, es: Seq<LabelView>) -> Seq<Seq<char>>
    decreases es.len(),
{
    if es.len() == 0 {
        labels
    } else {
        spec_write_labels(labels.update(es[0].index, es[0].name), es.drop_first())
    }
}

/// Every entry's destination fits the routing array of the given length.
pub open spec fn routes_in_bounds(rs: Seq<RouteView>, len: int) -> bool {
    forall|i: int| 0 <= i < rs.len() ==> 0 <= (#[trigger] rs[i]).destination < len
}

/// Writes route entries in order; a later entry for the same destination
/// wins.
pub open spec fn spec_write_routes(routes: Seq<int>, rs: Seq<RouteView>) -> Seq<int>
    decreases rs.len(),
{
    if rs.len() == 0 {
        routes
    } else {
        spec_write_routes(routes.update(rs[0].destination, rs[0].source), rs.drop_first())
    }
}

/// What one message does to the state.  `None` is the fatal case: a
/// label or route index out of the current bounds; the state is then
/// left as it was.
pub open spec fn spec_apply(s: HubView, m: MessageView) -> Option<HubView> {
    match m {
        MessageView::DeviceInfo(di) => Some(
            HubView {
                model: di.model,
                input_count: di.input_count,
                output_count: di.output_count,
                input_labels: spec_resize_seqs(s.input_labels, di.input_count),
                output_labels: spec_resize_seqs(s.output_labels, di.input_count),
                video_routes: spec_resize_ints(s.video_routes, di.input_count),
            },
        ),
        MessageView::InputLabels(es) => if labels_in_bounds(es, s.input_labels.len() as int) {
            Some(HubView { input_labels: spec_write_labels(s.input_labels, es), ..s })
        } else {
            None
        },
        MessageView::OutputLabels(es) => if labels_in_bounds(es, s.output_labels.len() as int) {
            Some(HubView { output_labels: spec_write_labels(s.output_labels, es), ..s })
        } else {
            None
        },
        MessageView::VideoRouting(rs) => if routes_in_bounds(rs, s.video_routes.len() as int) {
            Some(HubView { video_routes: spec_write_routes(s.video_routes, rs), ..s })
        } else {
            None
        },
        _ => Some(s),
    }
}

/// Applies messages in order.  The flag is `false` when a message was
/// fatal; the state then stops just before that message.
pub open spec fn spec_apply_all(s: HubView, ms: Seq<MessageView>) -> (HubView, bool)
    decreases ms.len(),
{
    if ms.len() == 0 {
        (s, true)
    } else {
        match spec_apply(s, ms[0]) {
            Some(s2) => spec_apply_all(s2, ms.drop_first()),
            None => (s, false),
        }
    }
}

/// Whether an acknowledgement is among the messages.
pub open spec fn spec_has_ack(ms: Seq<MessageView>) -> bool {
    exists|i: int| 0 <= i < ms.len() && (#[trigger] ms[i]) is Acknowledge
}

/// Whether a rejection is among the messages.
pub open spec fn spec_has_nack(ms: Seq<MessageView>) -> bool {
    exists|i: int| 0 <= i < ms.len() && (#[trigger] ms[i]) is NoAcknowledge
}

/// The first device-information message, if any.
pub open spec fn spec_first_device_info(ms: Seq<MessageView>) -> Option<DeviceInfoView>
    decreases ms.len(),
{
    if ms.len() == 0 {
        None
    } else {
        match ms[0] {
            MessageView::DeviceInfo(di) => Some(di),
            _ => spec_first_device_info(ms.drop_first()),
        }
    }
}

fn resize_string_vec(v: &mut Vec<String>, n: usize)
    ensures
        strings_view(final(v)@) == spec_resize_seqs(strings_view(old(v)@), n as int),
{
    if v.len() > n {
        v.truncate(n);
        proof {
            assert(strings_view(v@) =~= spec_resize_seqs(strings_view(old(v)@), n as int));
        }
    } else {
        let ghost base = v@;
        while v.len() < n
            invariant
                base.len() <= v@.len(),
                v@.len() <= n,
                forall|k: int| 0 <= k < base.len() ==> v@[k] == base[k],
                forall|k: int| base.len() <= k < v@.len() ==> (#[trigger] v@[k])@ == Seq::<
                    char,
                >::empty(),
            decreases n - v.len(),
        {
            v.push(String::new());
        }
        proof {
            assert(strings_view(v@) =~= spec_resize_seqs(strings_view(base), n as int));
        }
    }
}

fn resize_usize_vec(v: &mut Vec<usize>, n: usize)
    ensures
        usizes_view(final(v)@) == spec_resize_ints(usizes_view(old(v)@), n as int),
{
    if v.len() > n {
        v.truncate(n);
        proof {
            assert(usizes_view(v@) =~= spec_resize_ints(usizes_view(old(v)@), n as int));
        }
    } else {
        let ghost base = v@;
        while v.len() < n
            invariant
                base.len() <= v@.len(),
                v@.len() <= n,
                forall|k: int| 0 <= k < base.len() ==> v@[k] == base[k],
                forall|k: int| base.len() <= k < v@.len() ==> #[trigger] v@[k] == 0usize,
            decreases n - v.len(),
        {
            v.push(0);
        }
        proof {
            assert(usizes_view(v@) =~= spec_resize_ints(usizes_view(base), n as int));
        }
    }
}

/// Writing labels never changes the array's length.
proof fn lemma_write_labels_len(labels: Seq<Seq<char>>, es: Seq<LabelView>)
    requires
        labels_in_bounds(es, labels.len() as int),
    ensures
        spec_write_labels(labels, es).len() == labels.len(),
    decreases es.len(),
{
    if es.len() > 0 {
        let l2 = labels.update(es[0].index, es[0].name);
        assert(l2.len() == labels.len());
        assert forall|i: int| 0 <= i < es.drop_first().len() implies 0 <= (#[trigger] es.drop_first()[i]).index < l2.len() by {
            assert(es.drop_first()[i] == es[i + 1]);
        }
        lemma_write_labels_len(l2, es.drop_first());
    }
}

/// Writing routes never changes the array's length.
proof fn lemma_write_routes_len(routes: Seq<int>, rs: Seq<RouteView>)
    requires
        routes_in_bounds(rs, routes.len() as int),
    ensures
        spec_write_routes(routes, rs).len() == routes.len(),
    decreases rs.len(),
{
    if rs.len() > 0 {
        let r2 = routes.update(rs[0].destination, rs[0].source);
        assert(r2.len() == routes.len());
        assert forall|i: int| 0 <= i < rs.drop_first().len() implies 0 <= (#[trigger] rs.drop_first()[i]).destination < r2.len() by {
            assert(rs.drop_first()[i] == rs[i + 1]);
        }
        lemma_write_routes_len(r2, rs.drop_first());
    }
}

/// Writes a parsed label list into a label array, every index checked
/// against the array's bounds first: an out-of-range index is fatal and
/// leaves the array untouched.
fn write_labels(labels: &mut Vec<String>, ll: &LabelList) -> (r: Result<(), HubError>)
    ensures
        match r {
            Ok(_) => labels_in_bounds(ll@, old(labels)@.len() as int) && strings_view(
                final(labels)@,
            ) == spec_write_labels(strings_view(old(labels)@), ll@),
            Err(e) => e is IndexOutOfBounds && !labels_in_bounds(ll@, old(labels)@.len() as int)
                && final(labels)@ == old(labels)@,
        },
{
    let mut k: usize = 0;
    while k < ll.labels.len()
        invariant
            k <= ll.labels@.len(),
            forall|j: int| 0 <= j < k ==> 0 <= (#[trigger] ll@[j]).index < labels@.len(),
            labels@ == old(labels)@,
        decreases ll.labels.len() - k,
    {
        if ll.labels[k].index >= labels.len() {
            proof {
                assert(0 <= k < ll@.len());
                assert(ll@[k as int].index >= old(labels)@.len());
                assert(!labels_in_bounds(ll@, old(labels)@.len() as int));
            }
            return Err(HubError::IndexOutOfBounds);
        }
        k = k + 1;
    }
    let ghost base = labels@;
    let mut k: usize = 0;
    proof {
        assert(ll@.skip(0) =~= ll@);
    }
    while k < ll.labels.len()
        invariant
            k <= ll.labels@.len(),
            labels@.len() == base.len(),
            labels_in_bounds(ll@, base.len() as int),
            spec_write_labels(strings_view(base), ll@) == spec_write_labels(
                strings_view(labels@),
                ll@.skip(k as int),
            ),
        decreases ll.labels.len() - k,
    {
        let ghost pre = ll@.skip(k as int);
        let ghost cur = labels@;
        labels.set(ll.labels[k].index, ll.labels[k].name.clone());
        proof {
            assert(pre[0] == ll@[k as int]);
            assert(pre.drop_first() =~= ll@.skip(k + 1));
            assert(strings_view(labels@) =~= strings_view(cur).update(
                ll@[k as int].index,
                ll@[k as int].name,
            ));
        }
        k = k + 1;
    }
    proof {
        assert(ll@.skip(ll@.len() as int) =~= Seq::<LabelView>::empty());
    }
    Ok(())
}

/// Writes a parsed routing list into the routing array, every
/// destination checked against the array's bounds first: an out-of-range
/// destination is fatal and leaves the array untouched.
fn write_routes(routes: &mut Vec<usize>, vr: &VideoRouting) -> (r: Result<(), HubError>)
    ensures
        match r {
            Ok(_) => routes_in_bounds(vr@, old(routes)@.len() as int) && usizes_view(
                final(routes)@,
            ) == spec_write_routes(usizes_view(old(routes)@), vr@),
            Err(e) => e is IndexOutOfBounds && !routes_in_bounds(vr@, old(routes)@.len() as int)
                && final(routes)@ == old(routes)@,
        },
{
    let mut k: usize = 0;
    while k < vr.routes.len()
        invariant
            k <= vr.routes@.len(),
            forall|j: int| 0 <= j < k ==> 0 <= (#[trigger] vr@[j]).destination < routes@.len(),
            routes@ == old(routes)@,
        decreases vr.routes.len() - k,
    {
        if vr.routes[k].destination >= routes.len() {
            proof {
                assert(0 <= k < vr@.len());
                assert(vr@[k as int].destination >= old(routes)@.len());
                assert(!routes_in_bounds(vr@, old(routes)@.len() as int));
            }
            return Err(HubError::IndexOutOfBounds);
        }
        k = k + 1;
    }
    let ghost base = routes@;
    let mut k: usize = 0;
    proof {
        assert(vr@.skip(0) =~= vr@);
    }
    while k < vr.routes.len()
        invariant
            k <= vr.routes@.len(),
            routes@.len() == base.len(),
            routes_in_bounds(vr@, base.len() as int),
            spec_write_routes(usizes_view(base), vr@) == spec_write_routes(
                usizes_view(routes@),
                vr@.skip(k as int),
            ),
        decreases vr.routes.len() - k,
    {
        let ghost pre = vr@.skip(k as int);
        let ghost cur = routes@;
        routes.set(vr.routes[k].destination, vr.routes[k].source);
        proof {
            assert(pre[0] == vr@[k as int]);
            assert(pre.drop_first() =~= vr@.skip(k + 1));
            assert(usizes_view(routes@) =~= usizes_view(cur).update(
                vr@[k as int].destination,
                vr@[k as int].source,
            ));
        }
        k = k + 1;
    }
    proof {
        assert(vr@.skip(vr@.len() as int) =~= Seq::<RouteView>::empty());
    }
    Ok(())
}

/// Whether an acknowledgement is among the parsed messages.
pub fn has_ack(blocks: &Vec<HubMessage>) -> (r: bool)
    ensures
        r == spec_has_ack(msgs_view(blocks@)),
{
    let mut k: usize = 0;
    while k < blocks.len()
        invariant
            k <= blocks@.len(),
            forall|j: int| 0 <= j < k ==> !((#[trigger] msgs_view(blocks@)[j]) is Acknowledge),
        decreases blocks.len() - k,
    {
        let b: &HubMessage = &blocks[k];
        match b {
            HubMessage::Acknowledge => {
                proof {
                    assert(msgs_view(blocks@)[k as int] is Acknowledge);
                }
                return true;
            },
            _ => {},
        }
        k = k + 1;
    }
    false
}

/// Whether a rejection is among the parsed messages.
pub fn has_nack(blocks: &Vec<HubMessage>) -> (r: bool)
    ensures
        r == spec_has_nack(msgs_view(blocks@)),
{
    let mut k: usize = 0;
    while k < blocks.len()
        invariant
            k <= blocks@.len(),
            forall|j: int| 0 <= j < k ==> !((#[trigger] msgs_view(blocks@)[j]) is NoAcknowledge),
        decreases blocks.len() - k,
    {
        let b: &HubMessage = &blocks[k];
        match b {
            HubMessage::NoAcknowledge => {
                proof {
                    assert(msgs_view(blocks@)[k as int] is NoAcknowledge);
                }
                return true;
            },
            _ => {},
        }
        k = k + 1;
    }
    false
}

impl VideoHub {
    fn new_empty() -> (h: VideoHub)
        ensures
            h@ == spec_hub_empty(),
    {
        let h = VideoHub {
            model: String::new(),
            input_count: 0,
            output_count: 0,
            input_labels: Vec::new(),
            output_labels: Vec::new(),
            video_routes: Vec::new(),
        };
        proof {
            assert(h@.input_labels =~= spec_hub_empty().input_labels);
            assert(h@.output_labels =~= spec_hub_empty().output_labels);
            assert(h@.video_routes =~= spec_hub_empty().video_routes);
        }
        h
    }

    /// Applies parsed messages to the mirror in order.  A
    /// device-information message overwrites counts and resizes the
    /// arrays; label and routing messages write their entries; an
    /// out-of-range index aborts the remaining messages.
    pub fn update(&mut self, blocks: &Vec<HubMessage>) -> (r: Result<(), HubError>)
        ensures
            final(self)@ == spec_apply_all(old(self)@, msgs_view(blocks@)).0,
            r is Ok <==> spec_apply_all(old(self)@, msgs_view(blocks@)).1,
            r matches Err(e) ==> e is IndexOutOfBounds,
            old(self)@.wf() ==> final(self)@.wf(),
    {
        let ghost mv = msgs_view(blocks@);
        let mut i: usize = 0;
        proof {
            assert(mv.skip(0) =~= mv);
        }
        while i < blocks.len()
            invariant
                i <= blocks@.len(),
                mv == msgs_view(blocks@),
                spec_apply_all(old(self)@, mv) == spec_apply_all(self@, mv.skip(i as int)),
                old(self)@.wf() ==> self@.wf(),
            decreases blocks.len() - i,
        {
            let ghost pre = mv.skip(i as int);
            let ghost cur = self@;
            proof {
                assert(pre[0] == mv[i as int]);
                assert(pre.drop_first() =~= mv.skip(i + 1));
            }
            let b: &HubMessage = &blocks[i];
            match b {
                HubMessage::DeviceInfo(di) => {
                    self.input_count = di.input_count;
                    self.output_count = di.output_count;
                    resize_string_vec(&mut self.input_labels, di.input_count);
                    resize_string_vec(&mut self.output_labels, di.input_count);
                    resize_usize_vec(&mut self.video_routes, di.input_count);
                    self.model = di.model.clone();
                    proof {
                        assert(spec_apply(cur, pre[0]) == Some(self@));
                    }
                },
                HubMessage::InputLabels(ll) => {
                    match write_labels(&mut self.input_labels, ll) {
                        Ok(_) => {
                            proof {
                                lemma_write_labels_len(cur.input_labels, ll@);
                                assert(spec_apply(cur, pre[0]) == Some(self@));
                            }
                        },
                        Err(e) => {
                            proof {
                                assert(spec_apply(cur, pre[0]) is None);
                                assert(spec_apply_all(self@, pre) == (self@, false));
                            }
                            return Err(e);
                        },
                    }
                },
                HubMessage::OutputLabels(ll) => {
                    match write_labels(&mut self.output_labels, ll) {
                        Ok(_) => {
                            proof {
                                lemma_write_labels_len(cur.output_labels, ll@);
                                assert(spec_apply(cur, pre[0]) == Some(self@));
                            }
                        },
                        Err(e) => {
                            proof {
                                assert(spec_apply(cur, pre[0]) is None);
                                assert(spec_apply_all(self@, pre) == (self@, false));
                            }
                            return Err(e);
                        },
                    }
                },
                HubMessage::VideoRouting(vr) => {
                    match write_routes(&mut self.video_routes, vr) {
                        Ok(_) => {
                            proof {
                                lemma_write_routes_len(cur.video_routes, vr@);
                                assert(spec_apply(cur, pre[0]) == Some(self@));
                            }
                        },
                        Err(e) => {
                            proof {
                                assert(spec_apply(cur, pre[0]) is None);
                                assert(spec_apply_all(self@, pre) == (self@, false));
                            }
                            return Err(e);
                        },
                    }
                },
                _ => {
                    proof {
                        assert(spec_apply(cur, pre[0]) == Some(self@));
                    }
                },
            }
            i = i + 1;
        }
        proof {
            assert(mv.skip(i as int) =~= Seq::<MessageView>::empty());
        }
        Ok(())
    }

    /// Builds a session state from the device's hello text: the hello
    /// must hold at least one block and a device-information block with
    /// equal port counts; all parsed messages are then applied to a
    /// zero-valued state.
    pub fn from_hello(hello: &str) -> (r: Result<VideoHub, HubError>)
        ensures
            ({
                let ms = spec_parse_blocks(hello@);
                let fdi = spec_first_device_info(ms);
                let app = spec_apply_all(spec_hub_empty(), ms);
                match r {
                    Ok(h) => ms.len() > 0 && (fdi matches Some(di) && di.input_count
                        == di.output_count) && app.1 && h@ == app.0 && h@.wf(),
                    Err(e) => match e {
                        HubError::EmptyHello => ms.len() == 0,
                        HubError::MissingDeviceInfo => ms.len() > 0 && fdi is None,
                        HubError::MismatchedPortCounts => fdi matches Some(di) && di.input_count
                            != di.output_count,
                        HubError::IndexOutOfBounds => fdi matches Some(di) && di.input_count
                            == di.output_count && !app.1,
                        _ => false,
                    },
                }
            }),
    {
        let blocks = HubMessage::parse_blocks(hello);
        let ghost mv = msgs_view(blocks@);
        if blocks.len() == 0 {
            return Err(HubError::EmptyHello);
        }
        let mut k: usize = 0;
        let mut found: Option<&DeviceInfo> = None;
        proof {
            assert(mv.skip(0) =~= mv);
        }
        loop
            invariant_except_break
                k <= blocks@.len(),
                mv == msgs_view(blocks@),
                found is None,
                spec_first_device_info(mv) == spec_first_device_info(mv.skip(k as int)),
            ensures
                mv == msgs_view(blocks@),
                match found {
                    Some(di) => spec_first_device_info(mv) == Some(di@),
                    None => spec_first_device_info(mv) is None,
                },
            decreases blocks.len() - k,
        {
            if k >= blocks.len() {
                proof {
                    assert(mv.skip(k as int) =~= Seq::<MessageView>::empty());
                }
                break ;
            }
            let ghost pre = mv.skip(k as int);
            proof {
                assert(pre[0] == mv[k as int]);
                assert(pre.drop_first() =~= mv.skip(k + 1));
            }
            let b: &HubMessage = &blocks[k];
            match b {
                HubMessage::DeviceInfo(di) => {
                    found = Some(di);
                    break ;
                },
                _ => {},
            }
            k = k + 1;
        }
        match found {
            Some(di) => {
                if di.input_count != di.output_count {
                    return Err(HubError::MismatchedPortCounts);
                }
            },
            None => {
                return Err(HubError::MissingDeviceInfo);
            },
        }
        let mut hub = VideoHub::new_empty();
        match hub.update(&blocks) {
            Ok(_) => Ok(hub),
            Err(e) => Err(e),
        }
    }

    /// Applies a command response to the mirror, then judges the
    /// acknowledgement: any NACK, or a missing ACK, fails the command,
    /// but a state echo in the same response is kept either way.
    pub fn apply_response(&mut self, response: &str) -> (r: Result<(), HubError>)
        ensures
            ({
                let ms = spec_parse_blocks(response@);
                let app = spec_apply_all(old(self)@, ms);
                &&& final(self)@ == app.0
                &&& (old(self)@.wf() ==> final(self)@.wf())
                &&& match r {
                    Ok(_) => app.1 && spec_has_ack(ms) && !spec_has_nack(ms),
                    Err(e) => match e {
                        HubError::IndexOutOfBounds => !app.1,
                        HubError::NotAcknowledged(t) => app.1 && t@ == response@ && (!spec_has_ack(
                            ms,
                        ) || spec_has_nack(ms)),
                        _ => false,
                    },
                }
            }),
    {
        let blocks = HubMessage::parse_blocks(response);
        match self.update(&blocks) {
            Ok(_) => {},
            Err(e) => {
                return Err(e);
            },
        }
        if has_nack(&blocks) || !has_ack(&blocks) {
            return Err(HubError::NotAcknowledged(response.to_owned()));
        }
        Ok(())
    }
}

impl VideoHub {
    /// The number of input ports last reported by the device.
    pub fn input_count(&self) -> (r: usize)
        ensures
            r as int == self@.input_count,
    {
        self.input_count
    }

    /// The number of output ports last reported by the device.
    pub fn output_count(&self) -> (r: usize)
        ensures
            r as int == self@.output_count,
    {
        self.output_count
    }

    /// The input port labels, indexed by port.
    pub fn input_labels(&self) -> (r: &Vec<String>)
        ensures
            strings_view(r@) == self@.input_labels,
    {
        &self.input_labels
    }

    /// The output port labels, indexed by port.
    pub fn output_labels(&self) -> (r: &Vec<String>)
        ensures
            strings_view(r@) == self@.output_labels,
    {
        &self.output_labels
    }

    /// The device's model name.
    pub fn model(&self) -> (r: &str)
        ensures
            r@ == self@.model,
    {
        self.model.as_str()
    }

    /// The routing table: entry `d` is the input feeding output `d`.
    pub fn video_routes(&self) -> (r: &Vec<usize>)
        ensures
            usizes_view(r@) == self@.video_routes,
    {
        &self.video_routes
    }
}

/// Text that an integer was parsed from holds no space.
proof fn lemma_int_text_no_space(t: Seq<char>)
    requires
        spec_parse_int(t) is Some,
    ensures
        t.len() >= 1,
        forall|i: int| 0 <= i < t.len() ==> t[i] != ' ',
{
    if t.len() >= 1 && (t[0] == '+' || t[0] == '-') {
        let body = t.subrange(1, t.len() as int);
        assert forall|i: int| 0 <= i < t.len() implies t[i] != ' ' by {
            if i > 0 {
                assert(is_digit_char(body[i - 1]));
                assert(body[i - 1] == t[i]);
            }
        }
    } else {
        assert(is_digits(t));
        assert forall|i: int| 0 <= i < t.len() implies t[i] != ' ' by {
            assert(is_digit_char(t[i]));
        }
    }
}

/// A text without the character `c` has no occurrence of it to find.
proof fn lemma_no_char_no_find(t: Seq<char>, c: char)
    requires
        forall|i: int| 0 <= i < t.len() ==> t[i] != c,
    ensures
        spec_find(t, seq![c]) == -1,
{
    let p = seq![c];
    crate::text::lemma_find_first(t, p);
    let f = spec_find(t, p);
    if f >= 0 {
        assert(t.subrange(f, f + p.len() as int) == p);
        assert(t[f] == t.subrange(f, f + p.len() as int)[0]);
        assert(false);
    }
}

/// In `t + [c] + rest`, when `t` holds no `c`, the first occurrence of
/// `c` stands right after `t`.
proof fn lemma_find_char(t: Seq<char>, rest: Seq<char>, c: char)
    requires
        forall|i: int| 0 <= i < t.len() ==> t[i] != c,
    ensures
        spec_find(t + seq![c] + rest, seq![c]) == t.len(),
{
    let p = seq![c];
    let line = t + p + rest;
    crate::text::lemma_find_first(line, p);
    let f = spec_find(line, p);
    assert(p.len() == 1);
    assert(line.subrange(t.len() as int, t.len() as int + p.len() as int) =~= p);
    if f < 0 {
        assert(line.subrange(t.len() as int, t.len() as int + p.len() as int) != p);
        assert(false);
    } else if f < t.len() {
        assert(line.subrange(f, f + p.len() as int) == p);
        assert(line[f] == line.subrange(f, f + p.len() as int)[0]);
        assert(line[f] == t[f]);
        assert(false);
    } else if f > t.len() {
        assert(line.subrange(t.len() as int, t.len() as int + p.len() as int) != p);
        assert(false);
    }
    assert(t + p + rest =~= t + seq![c] + rest);
}

/// The space-separator instances used by the line grammars.
proof fn lemma_no_space_no_find(t: Seq<char>)
    requires
        forall|i: int| 0 <= i < t.len() ==> t[i] != ' ',
    ensures
        spec_find(t, seq![' ']) == -1,
{
    lemma_no_char_no_find(t, ' ');
}

proof fn lemma_find_space(t: Seq<char>, rest: Seq<char>)
    requires
        forall|i: int| 0 <= i < t.len() ==> t[i] != ' ',
    ensures
        spec_find(t + seq![' '] + rest, seq![' ']) == t.len(),
{
    lemma_find_char(t, rest, ' ');
    assert(t + seq![' '] + rest =~= t + seq![' '] + rest);
}

/// A decimal spelling holds no space.
proof fn lemma_dec_str_no_space(n: int)
    requires
        n >= 0,
    ensures
        forall|i: int| 0 <= i < spec_dec_str(n).len() ==> spec_dec_str(n)[i] != ' ',
{
    crate::text::lemma_dec_str_digits(n);
    assert forall|i: int| 0 <= i < spec_dec_str(n).len() implies spec_dec_str(n)[i] != ' ' by {
        assert(is_digit_char(spec_dec_str(n)[i]));
    }
}

/// Round trip of one label line: for every index from zero up to the
/// 32-bit limit and every name, the line `"<index> <name>"` parses to
/// exactly that entry, and the entry serializes back to the same line
/// with its newline.
pub proof fn lemma_label_line_round_trip(index: int, name: Seq<char>)
    requires
        0 <= index <= i32::MAX,
    ensures
        ({
            let line = spec_dec_str(index) + seq![' '] + name;
            let entry = LabelView { name: name, index: index };
            &&& spec_parse_labels(seq![line]) == Some(seq![entry])
            &&& spec_label_lines(seq![entry]) == line + seq!['\n']
        }),
{
    let t = spec_dec_str(index);
    let line = t + seq![' '] + name;
    let entry = LabelView { name: name, index: index };
    crate::text::lemma_dec_str_digits(index);
    lemma_dec_str_no_space(index);
    lemma_find_space(t, name);
    let d = spec_find(line, seq![' ']);
    assert(line.subrange(0, d) =~= t);
    assert(line.subrange(d + 1, line.len() as int) =~= name);
    assert(seq![line].drop_first() =~= Seq::<Seq<char>>::empty());
    assert(spec_parse_labels(Seq::<Seq<char>>::empty()) == Some(Seq::<LabelView>::empty()));
    assert(seq![entry] + Seq::<LabelView>::empty() =~= seq![entry]);
    assert(spec_parse_labels(seq![line]) == Some(seq![entry]));
    assert(seq![entry].drop_last() =~= Seq::<LabelView>::empty());
    assert(spec_label_lines(Seq::<LabelView>::empty()) == Seq::<char>::empty());
    assert(spec_label_lines(seq![entry]) =~= line + seq!['\n']);
}

/// A label line with a negative index parses without error and
/// contributes no entry.
pub proof fn lemma_negative_label_line_skipped(v: int, txt: Seq<char>, name: Seq<char>)
    requires
        spec_parse_int(txt) == Some(v),
        i32::MIN <= v < 0,
    ensures
        spec_parse_labels(seq![txt + seq![' '] + name]) == Some(Seq::<LabelView>::empty()),
{
    let line = txt + seq![' '] + name;
    lemma_int_text_no_space(txt);
    lemma_find_space(txt, name);
    let d = spec_find(line, seq![' ']);
    assert(line.subrange(0, d) =~= txt);
    assert(seq![line].drop_first() =~= Seq::<Seq<char>>::empty());
    assert(spec_parse_labels(Seq::<Seq<char>>::empty()) == Some(Seq::<LabelView>::empty()));
    assert(spec_parse_labels(seq![line]) == Some(Seq::<LabelView>::empty()));
}

/// Round trip of one routing line: for non-negative fields up to the
/// 32-bit limit, `"<destination> <source>"` parses to exactly that
/// entry, and the entry serializes back to the same line with its
/// newline.
pub proof fn lemma_route_line_round_trip(dest: int, src: int)
    requires
        0 <= dest <= i32::MAX,
        0 <= src <= i32::MAX,
    ensures
        ({
            let line = spec_dec_str(dest) + seq![' '] + spec_dec_str(src);
            let entry = RouteView { destination: dest, source: src };
            &&& spec_parse_routes(seq![line]) == Some(seq![entry])
            &&& spec_route_lines(seq![entry]) == line + seq!['\n']
        }),
{
    let dt = spec_dec_str(dest);
    let st = spec_dec_str(src);
    let line = dt + seq![' '] + st;
    let entry = RouteView { destination: dest, source: src };
    crate::text::lemma_dec_str_digits(dest);
    crate::text::lemma_dec_str_digits(src);
    lemma_dec_str_no_space(dest);
    lemma_dec_str_no_space(src);
    lemma_find_space(dt, st);
    let d = spec_find(line, seq![' ']);
    assert(line.subrange(0, d) =~= dt);
    assert(line.subrange(d + 1, line.len() as int) =~= st);
    lemma_no_space_no_find(st);
    assert(spec_split(st, seq![' ']) == seq![st]);
    assert(spec_split(line, seq![' ']) =~= seq![dt, st]);
    assert(seq![line].drop_first() =~= Seq::<Seq<char>>::empty());
    assert(spec_parse_routes(Seq::<Seq<char>>::empty()) == Some(Seq::<RouteView>::empty()));
    assert(seq![entry] + Seq::<RouteView>::empty() =~= seq![entry]);
    assert(spec_parse_routes(seq![line]) == Some(seq![entry]));
    assert(seq![entry].drop_last() =~= Seq::<RouteView>::empty());
    assert(spec_route_lines(Seq::<RouteView>::empty()) == Seq::<char>::empty());
    assert(spec_route_lines(seq![entry]) =~= line + seq!['\n']);
}

/// A routing line with a negative destination or source parses without
/// error and contributes no entry.
pub proof fn lemma_negative_route_line_skipped(dv: int, sv: int, dtxt: Seq<char>, stxt: Seq<char>)
    requires
        spec_parse_int(dtxt) == Some(dv),
        spec_parse_int(stxt) == Some(sv),
        i32::MIN <= dv <= i32::MAX,
        i32::MIN <= sv <= i32::MAX,
        dv < 0 || sv < 0,
    ensures
        spec_parse_routes(seq![dtxt + seq![' '] + stxt]) == Some(Seq::<RouteView>::empty()),
{
    let line = dtxt + seq![' '] + stxt;
    lemma_int_text_no_space(dtxt);
    lemma_int_text_no_space(stxt);
    lemma_find_space(dtxt, stxt);
    let d = spec_find(line, seq![' ']);
    assert(line.subrange(0, d) =~= dtxt);
    assert(line.subrange(d + 1, line.len() as int) =~= stxt);
    lemma_no_space_no_find(stxt);
    assert(spec_split(stxt, seq![' ']) == seq![stxt]);
    assert(spec_split(line, seq![' ']) =~= seq![dtxt, stxt]);
    assert(seq![line].drop_first() =~= Seq::<Seq<char>>::empty());
    assert(spec_parse_routes(Seq::<Seq<char>>::empty()) == Some(Seq::<RouteView>::empty()));
    assert(spec_parse_routes(seq![line]) == Some(Seq::<RouteView>::empty()));
}

/// In `a + "\n" + b + "\n\n"`, when neither `a` nor `b` holds a
/// newline and `b` is not empty, the first blank line is the one at the
/// end.
proof fn lemma_find_blank_line(a: Seq<char>, b: Seq<char>)
    requires
        forall|i: int| 0 <= i < a.len() ==> a[i] != '\n',
        forall|i: int| 0 <= i < b.len() ==> b[i] != '\n',
        b.len() >= 1,
    ensures
        spec_find(a + seq!['\n'] + b + seq!['\n', '\n'], seq!['\n', '\n']) == a.len() + 1
            + b.len(),
{
    let p = seq!['\n', '\n'];
    let t = a + seq!['\n'] + b + p;
    let pos = a.len() + 1 + b.len();
    crate::text::lemma_find_first(t, p);
    let f = spec_find(t, p);
    assert(p.len() == 2);
    assert(t.subrange(pos as int, pos as int + p.len() as int) =~= p);
    if f < 0 {
        assert(t.subrange(pos as int, pos as int + p.len() as int) != p);
        assert(false);
    } else if f > pos {
        assert(t.subrange(pos as int, pos as int + p.len() as int) != p);
        assert(false);
    } else if f < pos {
        assert(t.subrange(f, f + p.len() as int) == p);
        assert(t[f] == t.subrange(f, f + p.len() as int)[0]);
        assert(t[f + 1] == t.subrange(f, f + p.len() as int)[1]);
        assert(t[f] == '\n');
        assert(t[f + 1] == '\n');
        if f < a.len() {
            assert(t[f] == a[f]);
            assert(false);
        } else if f == a.len() {
            assert(t[f + 1] == b[0]);
            assert(false);
        } else {
            assert(t[f] == b[f - a.len() - 1]);
            assert(false);
        }
    }
}

/// `a + "\n" + b` splits into the two lines `a` and `b` when neither
/// holds a newline, `b` is not empty, and neither ends in a carriage
/// return.
proof fn lemma_lines_header_body(a: Seq<char>, b: Seq<char>)
    requires
        forall|i: int| 0 <= i < a.len() ==> a[i] != '\n',
        forall|i: int| 0 <= i < b.len() ==> b[i] != '\n',
        b.len() >= 1,
        a.len() == 0 || a[a.len() - 1] != '\r',
        b[b.len() - 1] != '\r',
    ensures
        spec_lines(a + seq!['\n'] + b) == seq![a, b],
{
    let t = a + seq!['\n'] + b;
    lemma_find_char(a, b, '\n');
    assert(spec_find(t, seq!['\n']) == a.len());
    assert(t.subrange(0, a.len() as int) =~= a);
    assert(t.subrange(a.len() as int + 1, t.len() as int) =~= b);
    lemma_no_char_no_find(b, '\n');
    assert(spec_split(b, seq!['\n']) == seq![b]);
    assert(spec_split(t, seq!['\n']) =~= seq![a, b]);
    assert(seq![a, b].last() == b);
    assert(spec_strip_cr(a) == a);
    assert(spec_strip_cr(b) == b);
    assert(spec_lines(t) =~= seq![a, b]);
}

/// A payload holding one block and the empty chunk after its terminator
/// parses to just that block's message.
proof fn lemma_parse_chunks_single(c: Seq<char>, m: MessageView)
    requires
        spec_parse_block(c) == Some(m),
    ensures
        spec_parse_chunks(seq![c, Seq::<char>::empty()]) == seq![m],
{
    let e = Seq::<char>::empty();
    assert(spec_split(e, seq!['\n']) == seq![e]);
    assert(spec_lines(e) =~= Seq::<Seq<char>>::empty());
    assert(spec_parse_block(e) is None);
    assert(seq![c, e].drop_first() =~= seq![e]);
    assert(seq![e].drop_first() =~= Seq::<Seq<char>>::empty());
    assert(spec_parse_chunks(Seq::<Seq<char>>::empty()) == Seq::<MessageView>::empty());
    assert(spec_parse_chunks(seq![e]) == Seq::<MessageView>::empty());
    assert(spec_parse_chunks(seq![c, e]) =~= seq![m]);
}

/// Wire round trip of a one-entry label command: framing the serialized
/// text back into blocks and parsing them yields exactly the command,
/// for both label kinds, whenever the name holds no newline and does
/// not end in a carriage return.
pub proof fn lemma_label_command_wire_round_trip(index: int, name: Seq<char>)
    requires
        0 <= index <= i32::MAX,
        forall|i: int| 0 <= i < name.len() ==> name[i] != '\n',
        name.len() == 0 || name[name.len() - 1] != '\r',
    ensures
        ({
            let m = MessageView::InputLabels(seq![LabelView { name: name, index: index }]);
            spec_parse_blocks(spec_wire(m)->Some_0) == seq![m]
        }),
        ({
            let m = MessageView::OutputLabels(seq![LabelView { name: name, index: index }]);
            spec_parse_blocks(spec_wire(m)->Some_0) == seq![m]
        }),
{
    let entry = LabelView { name: name, index: index };
    let line = spec_dec_str(index) + seq![' '] + name;
    crate::text::lemma_dec_str_digits(index);
    lemma_label_line_round_trip(index, name);
    assert forall|i: int| 0 <= i < line.len() implies line[i] != '\n' by {
        if i < spec_dec_str(index).len() {
            assert(is_digit_char(spec_dec_str(index)[i]));
            assert(line[i] == spec_dec_str(index)[i]);
        } else if i > spec_dec_str(index).len() {
            assert(line[i] == name[i - spec_dec_str(index).len() - 1]);
        }
    }
    assert(line.len() >= 1);
    if name.len() > 0 {
        assert(line[line.len() - 1] == name[name.len() - 1]);
    } else {
        assert(line[line.len() - 1] == ' ');
    }
    reveal_strlit("PROTOCOL PREAMBLE:");
    reveal_strlit("VIDEOHUB DEVICE:");
    reveal_strlit("INPUT LABELS:");
    reveal_strlit("OUTPUT LABELS:");
    let hi = "INPUT LABELS:"@;
    let ho = "OUTPUT LABELS:"@;
    assert(hi.len() == 13);
    assert(ho.len() == 14);
    assert(("PROTOCOL PREAMBLE:")@.len() == 18);
    assert(("VIDEOHUB DEVICE:")@.len() == 16);
    assert forall|i: int| 0 <= i < hi.len() implies hi[i] != '\n' by {
        assert(hi[i] == hi[i]);
    }
    assert forall|i: int| 0 <= i < ho.len() implies ho[i] != '\n' by {
        assert(ho[i] == ho[i]);
    }
    assert(hi[hi.len() - 1] == ':');
    assert(ho[ho.len() - 1] == ':');

    let mi = MessageView::InputLabels(seq![entry]);
    let wi = spec_wire(mi)->Some_0;
    assert(wi =~= hi + seq!['\n'] + line + seq!['\n', '\n']);
    lemma_find_blank_line(hi, line);
    let ci = hi + seq!['\n'] + line;
    assert(wi.subrange(0, hi.len() as int + 1 + line.len() as int) =~= ci);
    assert(wi.subrange(
        hi.len() as int + 1 + line.len() as int + 2,
        wi.len() as int,
    ) =~= Seq::<char>::empty());
    assert(spec_find(Seq::<char>::empty(), seq!['\n', '\n']) == -1);
    assert(spec_split(Seq::<char>::empty(), seq!['\n', '\n']) == seq![Seq::<char>::empty()]);
    assert(spec_split(wi, seq!['\n', '\n']) =~= seq![ci, Seq::<char>::empty()]);
    lemma_lines_header_body(hi, line);
    assert(seq![hi, line].drop_first() =~= seq![line]);
    assert(spec_parse_block(ci) == Some(mi));
    lemma_parse_chunks_single(ci, mi);
    assert(spec_parse_blocks(wi) == seq![mi]);

    let mo = MessageView::OutputLabels(seq![entry]);
    let wo = spec_wire(mo)->Some_0;
    assert(wo =~= ho + seq!['\n'] + line + seq!['\n', '\n']);
    lemma_find_blank_line(ho, line);
    let co = ho + seq!['\n'] + line;
    assert(wo.subrange(0, ho.len() as int + 1 + line.len() as int) =~= co);
    assert(wo.subrange(
        ho.len() as int + 1 + line.len() as int + 2,
        wo.len() as int,
    ) =~= Seq::<char>::empty());
    assert(spec_split(wo, seq!['\n', '\n']) =~= seq![co, Seq::<char>::empty()]);
    lemma_lines_header_body(ho, line);
    assert(seq![ho, line].drop_first() =~= seq![line]);
    assert(spec_parse_block(co) == Some(mo));
    lemma_parse_chunks_single(co, mo);
    assert(spec_parse_blocks(wo) == seq![mo]);
}

/// Wire round trip of a one-entry routing command: framing the
/// serialized text back into blocks and parsing them yields exactly the
/// command.
pub proof fn lemma_route_command_wire_round_trip(dest: int, src: int)
    requires
        0 <= dest <= i32::MAX,
        0 <= src <= i32::MAX,
    ensures
        ({
            let m = MessageView::VideoRouting(seq![RouteView { destination: dest, source: src }]);
            spec_parse_blocks(spec_wire(m)->Some_0) == seq![m]
        }),
{
    let entry = RouteView { destination: dest, source: src };
    let line = spec_dec_str(dest) + seq![' '] + spec_dec_str(src);
    crate::text::lemma_dec_str_digits(dest);
    crate::text::lemma_dec_str_digits(src);
    lemma_route_line_round_trip(dest, src);
    assert forall|i: int| 0 <= i < line.len() implies line[i] != '\n' by {
        if i < spec_dec_str(dest).len() {
            assert(is_digit_char(spec_dec_str(dest)[i]));
            assert(line[i] == spec_dec_str(dest)[i]);
        } else if i > spec_dec_str(dest).len() {
            assert(line[i] == spec_dec_str(src)[i - spec_dec_str(dest).len() - 1]);
            assert(is_digit_char(line[i]));
        }
    }
    assert(line.len() >= 1);
    assert(line[line.len() - 1] == spec_dec_str(src)[spec_dec_str(src).len() - 1]);
    assert(is_digit_char(line[line.len() - 1]));
    reveal_strlit("PROTOCOL PREAMBLE:");
    reveal_strlit("VIDEOHUB DEVICE:");
    reveal_strlit("INPUT LABELS:");
    reveal_strlit("OUTPUT LABELS:");
    reveal_strlit("VIDEO OUTPUT LOCKS:");
    reveal_strlit("VIDEO OUTPUT ROUTING:");
    let h = "VIDEO OUTPUT ROUTING:"@;
    assert(h.len() == 21);
    assert(("PROTOCOL PREAMBLE:")@.len() == 18);
    assert(("VIDEOHUB DEVICE:")@.len() == 16);
    assert(("INPUT LABELS:")@.len() == 13);
    assert(("OUTPUT LABELS:")@.len() == 14);
    assert(("VIDEO OUTPUT LOCKS:")@.len() == 19);
    assert forall|i: int| 0 <= i < h.len() implies h[i] != '\n' by {
        assert(h[i] == h[i]);
    }
    assert(h[h.len() - 1] == ':');

    let m = MessageView::VideoRouting(seq![entry]);
    let w = spec_wire(m)->Some_0;
    assert(w =~= h + seq!['\n'] + line + seq!['\n', '\n']);
    lemma_find_blank_line(h, line);
    let c = h + seq!['\n'] + line;
    assert(w.subrange(0, h.len() as int + 1 + line.len() as int) =~= c);
    assert(w.subrange(h.len() as int + 1 + line.len() as int + 2, w.len() as int) =~= Seq::<char>::empty());
    assert(spec_find(Seq::<char>::empty(), seq!['\n', '\n']) == -1);
    assert(spec_split(Seq::<char>::empty(), seq!['\n', '\n']) == seq![Seq::<char>::empty()]);
    assert(spec_split(w, seq!['\n', '\n']) =~= seq![c, Seq::<char>::empty()]);
    lemma_lines_header_body(h, line);
    assert(seq![h, line].drop_first() =~= seq![line]);
    assert(spec_parse_block(c) == Some(m));
    lemma_parse_chunks_single(c, m);
    assert(spec_parse_blocks(w) == seq![m]);
}

/// The entry one well formed label line denotes: an index in range with
/// its name.  `None` for a line the parser would stop or fail on, or
/// whose index is negative.
pub open spec fn spec_label_entry(l: Seq<char>) -> Option<LabelView> {
    let d = spec_find(l, seq![' ']);
    if d < 0 {
        None
    } else {
        match spec_parse_int(l.subrange(0, d)) {
            Some(v) => if 0 <= v <= i32::MAX {
                Some(LabelView { name: l.subrange(d + 1, l.len() as int), index: v })
            } else {
                None
            },
            None => None,
        }
    }
}

/// Early exit of label parsing: when the first `k` lines are well
/// formed and line `k` has no space, the block yields exactly the
/// entries of those first `k` lines — the malformed line is a stop, not
/// a skip.
pub proof fn lemma_label_block_stops(lines: Seq<Seq<char>>, k: int)
    requires
        0 <= k < lines.len(),
        forall|i: int| 0 <= i < k ==> (#[trigger] spec_label_entry(lines[i])) is Some,
        spec_find(lines[k], seq![' ']) < 0,
    ensures
        spec_parse_labels(lines) == Some(
            Seq::new(k as nat, |i: int| spec_label_entry(lines[i])->Some_0),
        ),
    decreases k,
{
    if k == 0 {
        assert(Seq::new(0, |i: int| spec_label_entry(lines[i])->Some_0)
            =~= Seq::<LabelView>::empty());
    } else {
        let rest = lines.drop_first();
        assert forall|i: int| 0 <= i < k - 1 implies (#[trigger] spec_label_entry(rest[i]))
            is Some by {
            assert(rest[i] == lines[i + 1]);
        }
        assert(rest[k - 1] == lines[k as int]);
        lemma_label_block_stops(rest, k - 1);
        let e = spec_label_entry(lines[0])->Some_0;
        let l = lines[0];
        let d = spec_find(l, seq![' ']);
        assert(spec_parse_labels(lines) == Some(
            seq![e] + Seq::new((k - 1) as nat, |i: int| spec_label_entry(rest[i])->Some_0),
        ));
        assert(seq![e] + Seq::new((k - 1) as nat, |i: int| spec_label_entry(rest[i])->Some_0)
            =~= Seq::new(k as nat, |i: int| spec_label_entry(lines[i])->Some_0));
    }
}

/// A label block whose lines are all well formed yields exactly one
/// entry per line, in order.
pub proof fn lemma_label_block_complete(lines: Seq<Seq<char>>)
    requires
        forall|i: int| 0 <= i < lines.len() ==> (#[trigger] spec_label_entry(lines[i])) is Some,
    ensures
        spec_parse_labels(lines) == Some(
            Seq::new(lines.len(), |i: int| spec_label_entry(lines[i])->Some_0),
        ),
    decreases lines.len(),
{
    if lines.len() == 0 {
        assert(Seq::new(0, |i: int| spec_label_entry(lines[i])->Some_0)
            =~= Seq::<LabelView>::empty());
    } else {
        let rest = lines.drop_first();
        assert forall|i: int| 0 <= i < rest.len() implies (#[trigger] spec_label_entry(rest[i]))
            is Some by {
            assert(rest[i] == lines[i + 1]);
        }
        lemma_label_block_complete(rest);
        let e = spec_label_entry(lines[0])->Some_0;
        assert(spec_parse_labels(lines) == Some(
            seq![e] + Seq::new(rest.len(), |i: int| spec_label_entry(rest[i])->Some_0),
        ));
        assert(seq![e] + Seq::new(rest.len(), |i: int| spec_label_entry(rest[i])->Some_0)
            =~= Seq::new(lines.len(), |i: int| spec_label_entry(lines[i])->Some_0));
    }
}

/// Whether the text ends with a blank line, the block terminator of the
/// wire protocol.
pub fn ends_with_blank_line(s: &str) -> (r: bool)
    ensures
        r == (s@.len() >= 2 && s@[s@.len() - 2] == '\n' && s@[s@.len() - 1] == '\n'),
{
    let n = s.unicode_len();
    if n < 2 {
        return false;
    }
    s.get_char(n - 2) == '\n' && s.get_char(n - 1) == '\n'
}

} // verus!




