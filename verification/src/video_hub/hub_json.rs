//! Dump of a device's configuration as plain data, for backup and
//! restore.
//!
//! A dump mirrors the whole state of a device: one entry per input port,
//! one per output port, one per route.  Exporting builds the dump from
//! the local mirror; importing validates the dump against the connected
//! device's port counts and turns it into the three commands that
//! restore labels and routes.

use vstd::prelude::*;

use crate::video_hub::{
    labels_in_bounds, routes_in_bounds, spec_apply, spec_apply_all, spec_write_labels,
    spec_write_routes,
    HubError, HubMessage, HubView, Label, LabelList, LabelView, MessageView, Route, RouteView,
    VideoHub, VideoRouting,
};

verus! {

/// One port entry of a dump: a port index and its label.
#[derive(Debug)]
pub struct VideoHubLabel {
    pub id: usize,
    pub name: String,
}

/// Mathematical value of a [`VideoHubLabel`].
pub ghost struct DumpLabelView {
    pub id: int,
    pub name: Seq<char>,
}

impl View for VideoHubLabel {
    type V = DumpLabelView;

    open spec fn view(&self) -> DumpLabelView {
        DumpLabelView { id: self.id as int, name: self.name@ }
    }
}

/// Which label array a label command addresses.
#[derive(Debug)]
pub enum VideoHubLabelType {
    Input,
    Output,
}

/// One route entry of a dump: output `destination_id` is fed by input
/// `source_id`.
#[derive(Debug)]
pub struct VideoHubRoute {
    pub destination_id: usize,
    pub source_id: usize,
}

/// Mathematical value of a [`VideoHubRoute`].
pub ghost struct DumpRouteView {
    pub destination_id: int,
    pub source_id: int,
}

impl View for VideoHubRoute {
    type V = DumpRouteView;

    open spec fn view(&self) -> DumpRouteView {
        DumpRouteView {
            destination_id: self.destination_id as int,
            source_id: self.source_id as int,
        }
    }
}

/// A whole device configuration: a timestamp, the model name, both label
/// arrays and the routing table.
#[derive(Debug)]
pub struct VideoHubDump {
    pub time: u128,
    pub name: String,
    pub sources: Vec<VideoHubLabel>,
    pub destinations: Vec<VideoHubLabel>,
    pub routes: Vec<VideoHubRoute>,
}

/// Mathematical value of a [`VideoHubDump`].
pub ghost struct DumpView {
    pub time: int,
    pub name: Seq<char>,
    pub sources: Seq<DumpLabelView>,
    pub destinations: Seq<DumpLabelView>,
    pub routes: Seq<DumpRouteView>,
}

/// View of a vector of dump labels.
pub open spec fn dump_labels_view(s: Seq<VideoHubLabel>) -> Seq<DumpLabelView> {
    s.map_values(|l: VideoHubLabel| l@)
}

/// View of a vector of dump routes.
pub open spec fn dump_routes_view(s: Seq<VideoHubRoute>) -> Seq<DumpRouteView> {
    s.map_values(|r: VideoHubRoute| r@)
}

impl View for VideoHubDump {
    type V = DumpView;

    open spec fn view(&self) -> DumpView {
        DumpView {
            time: self.time as int,
            name: self.name@,
            sources: dump_labels_view(self.sources@),
            destinations: dump_labels_view(self.destinations@),
            routes: dump_routes_view(self.routes@),
        }
    }
}

/// The dump that mirrors a state: ids are contiguous from zero, one
/// entry per port, one route entry per output.
pub open spec fn spec_dump_of(s: HubView, time: int) -> DumpView {
    DumpView {
        time: time,
        name: s.model,
        sources: Seq::new(
            s.input_labels.len(),
            |i: int| DumpLabelView { id: i, name: s.input_labels[i] },
        ),
        destinations: Seq::new(
            s.output_labels.len(),
            |i: int| DumpLabelView { id: i, name: s.output_labels[i] },
        ),
        routes: Seq::new(
            s.video_routes.len(),
            |i: int| DumpRouteView { destination_id: i, source_id: s.video_routes[i] },
        ),
    }
}

/// Dump label entries as label-command entries.
pub open spec fn spec_labels_of_dump(ls: Seq<DumpLabelView>) -> Seq<LabelView> {
    ls.map_values(|d: DumpLabelView| LabelView { index: d.id, name: d.name })
}

/// Dump route entries as routing-command entries.
pub open spec fn spec_routes_of_dump(rs: Seq<DumpRouteView>) -> Seq<RouteView> {
    rs.map_values(|d: DumpRouteView| RouteView { destination: d.destination_id, source: d.source_id })
}

/// Turns dump label entries into a label list for a command.
pub fn labels_from_dump(ls: &Vec<VideoHubLabel>) -> (r: LabelList)
    ensures
        r@ == spec_labels_of_dump(dump_labels_view(ls@)),
{
    let mut labels: Vec<Label> = Vec::new();
    let mut i: usize = 0;
    while i < ls.len()
        invariant
            i <= ls@.len(),
            labels@.len() == i,
            forall|k: int| 0 <= k < i ==> (#[trigger] labels@[k])@ == (LabelView {
                index: ls@[k]@.id,
                name: ls@[k]@.name,
            }),
        decreases ls.len() - i,
    {
        labels.push(Label { name: ls[i].name.clone(), index: ls[i].id });
        i = i + 1;
    }
    let r = LabelList { labels };
    proof {
        assert(r@ =~= spec_labels_of_dump(dump_labels_view(ls@)));
    }
    r
}

/// Turns dump route entries into a routing list for a command.
pub fn routes_from_dump(rs: &Vec<VideoHubRoute>) -> (r: VideoRouting)
    ensures
        r@ == spec_routes_of_dump(dump_routes_view(rs@)),
{
    let mut routes: Vec<Route> = Vec::new();
    let mut i: usize = 0;
    while i < rs.len()
        invariant
            i <= rs@.len(),
            routes@.len() == i,
            forall|k: int| 0 <= k < i ==> (#[trigger] routes@[k])@ == (RouteView {
                destination: rs@[k]@.destination_id,
                source: rs@[k]@.source_id,
            }),
        decreases rs.len() - i,
    {
        routes.push(Route { destination: rs[i].destination_id, source: rs[i].source_id });
        i = i + 1;
    }
    let r = VideoRouting { routes };
    proof {
        assert(r@ =~= spec_routes_of_dump(dump_routes_view(rs@)));
    }
    r
}

/// Builds the label-set command for one label array from dump-style
/// entries.
pub fn label_set_message(label_type: &VideoHubLabelType, labels: &Vec<VideoHubLabel>) -> (m:
    HubMessage)
    ensures
        ({
            let es = spec_labels_of_dump(dump_labels_view(labels@));
            match label_type {
                VideoHubLabelType::Input => m@ == MessageView::InputLabels(es),
                VideoHubLabelType::Output => m@ == MessageView::OutputLabels(es),
            }
        }),
{
    let list = labels_from_dump(labels);
    match label_type {
        VideoHubLabelType::Input => HubMessage::InputLabels(list),
        VideoHubLabelType::Output => HubMessage::OutputLabels(list),
    }
}

/// Builds the route-set command from dump-style entries.
pub fn route_set_message(routes: &Vec<VideoHubRoute>) -> (m: HubMessage)
    ensures
        m@ == MessageView::VideoRouting(spec_routes_of_dump(dump_routes_view(routes@))),
{
    HubMessage::VideoRouting(routes_from_dump(routes))
}

impl VideoHub {
    /// Builds the dump that mirrors the current state.  The caller
    /// supplies the timestamp.
    pub fn to_dump(&self, time: u128) -> (r: VideoHubDump)
        ensures
            r@ == spec_dump_of(self@, time as int),
    {
        let in_labels = self.input_labels();
        let mut sources: Vec<VideoHubLabel> = Vec::new();
        let mut i: usize = 0;
        while i < in_labels.len()
            invariant
                i <= in_labels@.len(),
                sources@.len() == i,
                forall|k: int| 0 <= k < i ==> (#[trigger] sources@[k])@ == (DumpLabelView {
                    id: k,
                    name: in_labels@[k]@,
                }),
            decreases in_labels.len() - i,
        {
            sources.push(VideoHubLabel { id: i, name: in_labels[i].clone() });
            i = i + 1;
        }
        let out_labels = self.output_labels();
        let mut destinations: Vec<VideoHubLabel> = Vec::new();
        let mut i: usize = 0;
        while i < out_labels.len()
            invariant
                i <= out_labels@.len(),
                destinations@.len() == i,
                forall|k: int| 0 <= k < i ==> (#[trigger] destinations@[k])@ == (DumpLabelView {
                    id: k,
                    name: out_labels@[k]@,
                }),
            decreases out_labels.len() - i,
        {
            destinations.push(VideoHubLabel { id: i, name: out_labels[i].clone() });
            i = i + 1;
        }
        let route_table = self.video_routes();
        let mut routes: Vec<VideoHubRoute> = Vec::new();
        let mut i: usize = 0;
        while i < route_table.len()
            invariant
                i <= route_table@.len(),
                routes@.len() == i,
                forall|k: int| 0 <= k < i ==> (#[trigger] routes@[k])@ == (DumpRouteView {
                    destination_id: k,
                    source_id: route_table@[k] as int,
                }),
            decreases route_table.len() - i,
        {
            routes.push(VideoHubRoute { destination_id: i, source_id: route_table[i] });
            i = i + 1;
        }
        let name = String::from_str(self.model());
        let r = VideoHubDump { time, name, sources, destinations, routes };
        proof {
            assert(r@.sources =~= spec_dump_of(self@, time as int).sources);
            assert(r@.destinations =~= spec_dump_of(self@, time as int).destinations);
            assert(r@.routes =~= spec_dump_of(self@, time as int).routes);
        }
        r
    }

    /// Validates a dump against the current port counts and turns it
    /// into the three commands that restore it: input labels, output
    /// labels, routes.  A dump with as many entries as ports, or more,
    /// is rejected.
    pub fn import_messages(&self, dump: &VideoHubDump) -> (r: Result<
        (HubMessage, HubMessage, HubMessage),
        HubError,
    >)
        ensures
            ({
                let d = dump@;
                if d.sources.len() >= self@.input_count || d.destinations.len()
                    >= self@.output_count {
                    r matches Err(e) && e is DumpTooLarge
                } else {
                    r matches Ok(t) && t.0@ == MessageView::InputLabels(
                        spec_labels_of_dump(d.sources),
                    ) && t.1@ == MessageView::OutputLabels(spec_labels_of_dump(d.destinations))
                        && t.2@ == MessageView::VideoRouting(spec_routes_of_dump(d.routes))
                }
            }),
    {
        if dump.sources.len() >= self.input_count() {
            return Err(HubError::DumpTooLarge);
        }
        if dump.destinations.len() >= self.output_count() {
            return Err(HubError::DumpTooLarge);
        }
        let inputs = HubMessage::InputLabels(labels_from_dump(&dump.sources));
        let outputs = HubMessage::OutputLabels(labels_from_dump(&dump.destinations));
        let routing = HubMessage::VideoRouting(routes_from_dump(&dump.routes));
        Ok((inputs, outputs, routing))
    }
}

/// Writing entries `es`, where entry `i` is `{index: i + k, name:
/// src[i + k]}`, into an array at least as long as `src` copies
/// `src[k..]` into place and leaves every other slot alone.
proof fn lemma_restore_labels(a: Seq<Seq<char>>, src: Seq<Seq<char>>, es: Seq<LabelView>, k: int)
    requires
        0 <= k <= src.len(),
        src.len() <= a.len(),
        es.len() == src.len() - k,
        forall|i: int| 0 <= i < es.len() ==> #[trigger] es[i] == (LabelView {
            name: src[i + k],
            index: i + k,
        }),
    ensures
        spec_write_labels(a, es).len() == a.len(),
        forall|i: int| 0 <= i < k ==> #[trigger] spec_write_labels(a, es)[i] == a[i],
        forall|i: int| k <= i < src.len() ==> #[trigger] spec_write_labels(a, es)[i] == src[i],
        forall|i: int| src.len() <= i < a.len() ==> #[trigger] spec_write_labels(a, es)[i] == a[i],
    decreases es.len(),
{
    if es.len() == 0 {
        assert(spec_write_labels(a, es) == a);
    } else {
        assert(es[0] == (LabelView { name: src[k], index: k }));
        let a2 = a.update(k, src[k]);
        let es2 = es.drop_first();
        assert forall|i: int| 0 <= i < es2.len() implies #[trigger] es2[i] == (LabelView {
            name: src[i + (k + 1)],
            index: i + (k + 1),
        }) by {
            assert(es2[i] == es[i + 1]);
        }
        lemma_restore_labels(a2, src, es2, k + 1);
        let w = spec_write_labels(a, es);
        assert(w == spec_write_labels(a2, es2));
        assert forall|i: int| 0 <= i < k implies #[trigger] w[i] == a[i] by {
            assert(spec_write_labels(a2, es2)[i] == a2[i]);
            assert(a2[i] == a[i]);
        }
        assert forall|i: int| k <= i < src.len() implies #[trigger] w[i] == src[i] by {
            if i == k {
                assert(spec_write_labels(a2, es2)[i] == a2[i]);
                assert(a2[k] == src[k]);
            } else {
                assert(spec_write_labels(a2, es2)[i] == src[i]);
            }
        }
        assert forall|i: int| src.len() <= i < a.len() implies #[trigger] w[i] == a[i] by {
            assert(spec_write_labels(a2, es2)[i] == a2[i]);
            assert(a2[i] == a[i]);
        }
    }
}

/// The route analogue of the enumerated label write.
proof fn lemma_restore_routes(a: Seq<int>, src: Seq<int>, es: Seq<RouteView>, k: int)
    requires
        0 <= k <= src.len(),
        src.len() <= a.len(),
        es.len() == src.len() - k,
        forall|i: int| 0 <= i < es.len() ==> #[trigger] es[i] == (RouteView {
            destination: i + k,
            source: src[i + k],
        }),
    ensures
        spec_write_routes(a, es).len() == a.len(),
        forall|i: int| 0 <= i < k ==> #[trigger] spec_write_routes(a, es)[i] == a[i],
        forall|i: int| k <= i < src.len() ==> #[trigger] spec_write_routes(a, es)[i] == src[i],
        forall|i: int| src.len() <= i < a.len() ==> #[trigger] spec_write_routes(a, es)[i] == a[i],
    decreases es.len(),
{
    if es.len() == 0 {
        assert(spec_write_routes(a, es) == a);
    } else {
        assert(es[0] == (RouteView { destination: k, source: src[k] }));
        let a2 = a.update(k, src[k]);
        let es2 = es.drop_first();
        assert forall|i: int| 0 <= i < es2.len() implies #[trigger] es2[i] == (RouteView {
            destination: i + (k + 1),
            source: src[i + (k + 1)],
        }) by {
            assert(es2[i] == es[i + 1]);
        }
        lemma_restore_routes(a2, src, es2, k + 1);
        let w = spec_write_routes(a, es);
        assert(w == spec_write_routes(a2, es2));
        assert forall|i: int| 0 <= i < k implies #[trigger] w[i] == a[i] by {
            assert(spec_write_routes(a2, es2)[i] == a2[i]);
            assert(a2[i] == a[i]);
        }
        assert forall|i: int| k <= i < src.len() implies #[trigger] w[i] == src[i] by {
            if i == k {
                assert(spec_write_routes(a2, es2)[i] == a2[i]);
                assert(a2[k] == src[k]);
            } else {
                assert(spec_write_routes(a2, es2)[i] == src[i]);
            }
        }
        assert forall|i: int| src.len() <= i < a.len() implies #[trigger] w[i] == a[i] by {
            assert(spec_write_routes(a2, es2)[i] == a2[i]);
            assert(a2[i] == a[i]);
        }
    }
}

/// Dump restore round trip: exporting a state `s` and applying the
/// three import commands — as the device echoes them — to a state `t`
/// with more ports than `s` reproduces every label and route of `s` at
/// its index in `t`, and touches nothing else.  A target with exactly
/// the ports of `s` is out of reach of this statement: import validation
/// demands strictly fewer dump entries than ports, which an exact-size
/// dump never meets.
pub proof fn lemma_dump_restore(s: HubView, t: HubView, time: int)
    requires
        s.wf(),
        t.wf(),
        s.input_count < t.input_count,
    ensures
        ({
            let d = spec_dump_of(s, time);
            let ms = seq![
                MessageView::InputLabels(spec_labels_of_dump(d.sources)),
                MessageView::OutputLabels(spec_labels_of_dump(d.destinations)),
                MessageView::VideoRouting(spec_routes_of_dump(d.routes)),
            ];
            let app = spec_apply_all(t, ms);
            &&& app.1
            &&& app.0.model == t.model
            &&& app.0.input_count == t.input_count
            &&& app.0.output_count == t.output_count
            &&& app.0.input_labels.len() == t.input_count
            &&& app.0.output_labels.len() == t.input_count
            &&& app.0.video_routes.len() == t.input_count
            &&& forall|i: int|
                0 <= i < s.input_count ==> app.0.input_labels[i] == s.input_labels[i]
                    && app.0.output_labels[i] == s.output_labels[i] && app.0.video_routes[i]
                    == s.video_routes[i]
            &&& forall|i: int|
                s.input_count <= i < t.input_count ==> app.0.input_labels[i] == t.input_labels[i]
                    && app.0.output_labels[i] == t.output_labels[i] && app.0.video_routes[i]
                    == t.video_routes[i]
        }),
{
    let d = spec_dump_of(s, time);
    let es1 = spec_labels_of_dump(d.sources);
    let es2 = spec_labels_of_dump(d.destinations);
    let rs = spec_routes_of_dump(d.routes);
    let m1 = MessageView::InputLabels(es1);
    let m2 = MessageView::OutputLabels(es2);
    let m3 = MessageView::VideoRouting(rs);
    let ms = seq![m1, m2, m3];
    assert forall|i: int| 0 <= i < es1.len() implies #[trigger] es1[i] == (LabelView {
        name: s.input_labels[i + 0],
        index: i + 0,
    }) by {
        assert(d.sources[i] == (DumpLabelView { id: i, name: s.input_labels[i] }));
    }
    assert forall|i: int| 0 <= i < es2.len() implies #[trigger] es2[i] == (LabelView {
        name: s.output_labels[i + 0],
        index: i + 0,
    }) by {
        assert(d.destinations[i] == (DumpLabelView { id: i, name: s.output_labels[i] }));
    }
    assert forall|i: int| 0 <= i < rs.len() implies #[trigger] rs[i] == (RouteView {
        destination: i + 0,
        source: s.video_routes[i + 0],
    }) by {
        assert(d.routes[i] == (DumpRouteView { destination_id: i, source_id: s.video_routes[i] }));
    }
    assert(labels_in_bounds(es1, t.input_labels.len() as int));
    let t1 = spec_apply(t, m1)->Some_0;
    lemma_restore_labels(t.input_labels, s.input_labels, es1, 0);
    assert(t1.output_labels == t.output_labels);
    assert(t1.video_routes == t.video_routes);
    assert(labels_in_bounds(es2, t1.output_labels.len() as int));
    let t2 = spec_apply(t1, m2)->Some_0;
    lemma_restore_labels(t.output_labels, s.output_labels, es2, 0);
    assert(t2.video_routes == t.video_routes);
    assert(routes_in_bounds(rs, t2.video_routes.len() as int));
    let t3 = spec_apply(t2, m3)->Some_0;
    lemma_restore_routes(t.video_routes, s.video_routes, rs, 0);
    assert(ms.drop_first() =~= seq![m2, m3]);
    assert(seq![m2, m3].drop_first() =~= seq![m3]);
    assert(seq![m3].drop_first() =~= Seq::<MessageView>::empty());
    assert(spec_apply(t, m1) == Some(t1));
    assert(spec_apply_all(t, ms) == spec_apply_all(t1, seq![m2, m3]));
    assert(spec_apply(t1, m2) == Some(t2));
    assert(spec_apply_all(t1, seq![m2, m3]) == spec_apply_all(t2, seq![m3]));
    assert(spec_apply(t2, m3) == Some(t3));
    assert(spec_apply_all(t2, seq![m3]) == spec_apply_all(t3, Seq::<MessageView>::empty()));
    assert(spec_apply_all(t3, Seq::<MessageView>::empty()) == (t3, true));
    assert(spec_apply_all(t, ms) == (t3, true));
}

} // verus!

