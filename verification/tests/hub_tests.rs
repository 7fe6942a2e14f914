use hub_util::video_hub::{
    ends_with_blank_line, has_ack, has_nack, label_set_message, route_set_message, DeviceInfo,
    HubError, HubMessage, Label, LabelList, Preamble, Route, VideoHub, VideoHubLabel,
    VideoHubLabelType, VideoHubRoute, VideoRouting,
};

const HELLO: &str = "PROTOCOL PREAMBLE:
Version: 2.8

VIDEOHUB DEVICE:
Device present: true
Model name: Blackmagic Smart Videohub 20 x 20
Friendly name: Smart Videohub 20 x 20
Unique ID: 7C2E0D03192A
Video inputs: 20
Video processing units: 0
Video outputs: 20
Video monitoring outputs: 0
Serial ports: 0

INPUT LABELS:
0 Input 1
1 Input 2
2 Input 3
3 Input 4
4 Input 5
5 Input 6
6 Input 7
7 Input 8
8 Input 9
9 Input 10
10 Input 11
11 Input 12
12 Input 13
13 Input 14
14 Input 15
15 Input 15
16 Input 17
17 Input 18
18 Input 19
19 Input 20

OUTPUT LABELS:
0 Output 1
1 Output 2
2 Output 3
3 Output 4
4 Output 5
5 Output 6
6 Output 7
7 Output 8
8 Output 9
9 Output 10
10 Output 11
11 Output 12
12 Output 13
13 Output 14
14 Output 15
15 Output 16
16 Output 17
17 Output 18
18 Output 19
19 Output 20

VIDEO OUTPUT LOCKS:
0 U
1 U
2 U
3 U
4 U
5 U
6 U
7 U
8 U
9 U
10 U
11 U
12 U
13 U
14 U
15 U
16 U
17 U
18 U
19 U

VIDEO OUTPUT ROUTING:
0 0
1 1
2 2
3 3
4 4
5 5
6 6
7 7
8 8
9 9
10 10
11 11
12 12
13 13
14 14
15 15
16 16
17 17
18 18
19 19

CONFIGURATION:
Take Mode: true

END PRELUDE:

";

fn small_hello(inputs: usize, outputs: usize) -> String {
    format!(
        "PROTOCOL PREAMBLE:\nVersion: 2.8\n\nVIDEOHUB DEVICE:\nDevice present: true\nModel name: test hub\nUnique ID: 0\nVideo inputs: {}\nVideo outputs: {}\n\nEND PRELUDE:\n\n",
        inputs, outputs
    )
}

#[test]
fn test_preamble_parse() {
    let msg = Preamble::parse(&vec!["Version: 2.7"]).expect("Failed to parse version");
    if let HubMessage::Preamble(preamble) = msg {
        assert_eq!(preamble.version, "2.7");
    } else {
        panic!("Parsed message is not preamble, {:?}", msg);
    }
}

#[test]
fn test_device_info_parse() {
    let msg = DeviceInfo::parse(&vec![
        "Device present: true",
        "Model name: test",
        "Video inputs: 37",
        "Video outputs: 37",
        "Unique ID: test",
    ])
    .expect("Failed to parse version info");
    if let HubMessage::DeviceInfo(device_info) = msg {
        assert_eq!(device_info.input_count, 37);
        assert_eq!(device_info.output_count, 37);
        assert_eq!(device_info.present, "true");
        assert_eq!(device_info.uuid, "test");
        assert_eq!(device_info.model, "test");
    } else {
        panic!("Parsed message is not device info, {:?}", msg);
    }
}

#[test]
fn test_label_list_parse() {
    let msg = LabelList::parse(&vec![
        "-1 test 1",
        "0 test 1",
        "1 test 2",
        "2 test 3",
        "3 test 4",
        "4 test 5",
    ])
    .expect("Failed to parse label list");
    assert_eq!(msg.labels.len(), 5);
    assert_eq!(msg.labels[0].name, "test 1");
}

#[test]
fn test_label_list_serialize() {
    let list = LabelList {
        labels: vec![
            Label {
                index: 0,
                name: "test 1".to_string(),
            },
            Label {
                index: 15,
                name: "test 16".to_string(),
            },
        ],
    };
    let serialized = list.serialize();
    assert_eq!(serialized, "0 test 1\n15 test 16\n");
}

#[test]
fn test_video_routing_parse() {
    let msg = VideoRouting::parse(&vec!["-1 -1", "0 0", "1 1", "2 2", "3 3", "4 4"])
        .expect("Failed to parse label list");
    if let HubMessage::VideoRouting(routing) = msg {
        assert_eq!(routing.routes.len(), 5);
        assert_eq!(routing.routes[0].destination, 0);
    } else {
        panic!("Parsed message is not video routing");
    }
}

#[test]
fn test_video_routing_serialize() {
    let list = VideoRouting {
        routes: vec![
            Route {
                source: 0,
                destination: 0,
            },
            Route {
                source: 1,
                destination: 1,
            },
        ],
    };
    let serialized = list.serialize();
    assert_eq!(serialized, "0 0\n1 1\n");
}

#[test]
fn label_block_stops_at_first_malformed_line() {
    let msg = LabelList::parse(&vec!["0 a", "1 b", "nospace", "2 c"])
        .expect("Failed to parse label list");
    assert_eq!(msg.labels.len(), 2);
    assert_eq!(msg.labels[0].name, "a");
    assert_eq!(msg.labels[1].name, "b");
}

#[test]
fn label_block_with_malformed_first_line_is_empty() {
    let msg = LabelList::parse(&vec!["nospace", "0 a"]).expect("Failed to parse label list");
    assert_eq!(msg.labels.len(), 0);
}

#[test]
fn label_block_with_bad_index_fails() {
    let r = LabelList::parse(&vec!["x y"]);
    assert!(matches!(r, Err(HubError::ParseFailed)));
    let r = LabelList::parse(&vec!["99999999999 y"]);
    assert!(matches!(r, Err(HubError::ParseFailed)));
}

#[test]
fn routing_block_with_short_line_fails() {
    let r = VideoRouting::parse(&vec!["0"]);
    assert!(matches!(r, Err(HubError::ParseFailed)));
}

#[test]
fn device_info_with_bad_count_fails() {
    let r = DeviceInfo::parse(&vec!["Video inputs: many"]);
    assert!(matches!(r, Err(HubError::ParseFailed)));
}

#[test]
fn parse_blocks_keeps_known_blocks_in_order() {
    let msgs = HubMessage::parse_blocks(
        "SOME FUTURE BLOCK:\n0 x\n\nINPUT LABELS:\n0 cam\n\nVIDEO OUTPUT LOCKS:\n0 U\n\nACK\n\n",
    );
    assert_eq!(msgs.len(), 3);
    assert!(matches!(msgs[0], HubMessage::InputLabels(_)));
    assert!(matches!(msgs[1], HubMessage::Unrecognized));
    assert!(matches!(msgs[2], HubMessage::Acknowledge));
}

#[test]
fn message_headers_match_wire_names() {
    assert_eq!(HubMessage::Acknowledge.get_header(), "ACK");
    assert_eq!(HubMessage::NoAcknowledge.get_header(), "NACK");
    assert_eq!(HubMessage::PreludeEnd.get_header(), "END PRELUDE:");
    let m = HubMessage::InputLabels(LabelList { labels: vec![] });
    assert_eq!(m.get_header(), "INPUT LABELS:");
}

#[test]
fn to_wire_frames_commands() {
    let m = HubMessage::OutputLabels(LabelList {
        labels: vec![Label {
            index: 3,
            name: "monitor".to_string(),
        }],
    });
    assert_eq!(m.to_wire().expect("serializable"), "OUTPUT LABELS:\n3 monitor\n\n");
    let a = HubMessage::Acknowledge;
    assert!(matches!(a.to_wire(), Err(HubError::NotSerializable)));
}

#[test]
fn hub_parses_hello_message() {
    let hub = VideoHub::from_hello(HELLO).expect("failed to parse videohub");
    assert_eq!(hub.input_count(), 20);
    assert_eq!(hub.output_count(), 20);
    assert_eq!(hub.model(), "Blackmagic Smart Videohub 20 x 20");
    assert_eq!(hub.input_labels().len(), 20);
    assert_eq!(hub.output_labels().len(), 20);
    assert_eq!(hub.video_routes().len(), 20);
    assert_eq!(hub.input_labels()[0], "Input 1");
    assert_eq!(hub.output_labels()[19], "Output 20");
    assert_eq!(hub.video_routes()[7], 7);
}

#[test]
fn hello_with_mismatched_counts_fails() {
    let r = VideoHub::from_hello(&small_hello(20, 16));
    assert!(matches!(r, Err(HubError::MismatchedPortCounts)));
}

#[test]
fn hello_without_blocks_fails() {
    let r = VideoHub::from_hello("");
    assert!(matches!(r, Err(HubError::EmptyHello)));
}

#[test]
fn hello_without_device_info_fails() {
    let r = VideoHub::from_hello("PROTOCOL PREAMBLE:\nVersion: 2.8\n\nEND PRELUDE:\n\n");
    assert!(matches!(r, Err(HubError::MissingDeviceInfo)));
}

#[test]
fn command_cycle_plain_ack_succeeds() {
    let mut hub = VideoHub::from_hello(&small_hello(4, 4)).expect("failed to parse videohub");
    assert!(hub.apply_response("ACK\n\n").is_ok());
    assert_eq!(hub.input_count(), 4);
}

#[test]
fn command_cycle_nack_fails() {
    let mut hub = VideoHub::from_hello(&small_hello(4, 4)).expect("failed to parse videohub");
    let r = hub.apply_response("NACK\n\n");
    assert!(matches!(r, Err(HubError::NotAcknowledged(_))));
    if let Err(HubError::NotAcknowledged(raw)) = r {
        assert_eq!(raw, "NACK\n\n");
    }
}

#[test]
fn command_cycle_without_ack_fails() {
    let mut hub = VideoHub::from_hello(&small_hello(4, 4)).expect("failed to parse videohub");
    let r = hub.apply_response("");
    assert!(matches!(r, Err(HubError::NotAcknowledged(_))));
}

#[test]
fn command_cycle_echo_with_ack_updates_state() {
    let mut hub = VideoHub::from_hello(&small_hello(4, 4)).expect("failed to parse videohub");
    let r = hub.apply_response("INPUT LABELS:\n0 test label\n\nACK\n\n");
    assert!(r.is_ok());
    assert_eq!(hub.input_labels()[0], "test label");
}

#[test]
fn command_cycle_echo_with_nack_still_updates_state() {
    let mut hub = VideoHub::from_hello(&small_hello(4, 4)).expect("failed to parse videohub");
    let r = hub.apply_response("INPUT LABELS:\n1 kept anyway\n\nNACK\n\n");
    assert!(matches!(r, Err(HubError::NotAcknowledged(_))));
    assert_eq!(hub.input_labels()[1], "kept anyway");
}

#[test]
fn echo_with_out_of_range_index_fails() {
    let mut hub = VideoHub::from_hello(&small_hello(4, 4)).expect("failed to parse videohub");
    let r = hub.apply_response("INPUT LABELS:\n9 too far\n\nACK\n\n");
    assert!(matches!(r, Err(HubError::IndexOutOfBounds)));
}

#[test]
fn ack_scan_finds_ack_and_nack() {
    let blocks = HubMessage::parse_blocks("ACK\n\nNACK\n\n");
    assert!(has_ack(&blocks));
    assert!(has_nack(&blocks));
    let blocks = HubMessage::parse_blocks("END PRELUDE:\n\n");
    assert!(!has_ack(&blocks));
    assert!(!has_nack(&blocks));
}

#[test]
fn dump_mirrors_state() {
    let hub = VideoHub::from_hello(HELLO).expect("failed to parse videohub");
    let dump = hub.to_dump(1742323854265);
    assert_eq!(dump.time, 1742323854265);
    assert_eq!(dump.name, "Blackmagic Smart Videohub 20 x 20");
    assert_eq!(dump.sources.len(), 20);
    assert_eq!(dump.destinations.len(), 20);
    assert_eq!(dump.routes.len(), 20);
    assert_eq!(dump.sources[0].id, 0);
    assert_eq!(dump.sources[0].name, "Input 1");
    assert_eq!(dump.routes[19].destination_id, 19);
    assert_eq!(dump.routes[19].source_id, 19);
}

#[test]
fn dump_restore_round_trip() {
    let mut source = VideoHub::from_hello(&small_hello(4, 4)).expect("failed to parse videohub");
    source
        .apply_response("INPUT LABELS:\n0 cam a\n1 cam b\n2 cam c\n3 cam d\n\nOUTPUT LABELS:\n0 out a\n1 out b\n2 out c\n3 out d\n\nVIDEO OUTPUT ROUTING:\n0 3\n1 2\n2 1\n3 0\n\nACK\n\n")
        .expect("echo should apply");
    let dump = source.to_dump(7);

    let mut target = VideoHub::from_hello(&small_hello(8, 8)).expect("failed to parse videohub");
    let (inputs, outputs, routing) = target.import_messages(&dump).expect("dump should fit");
    target
        .update(&vec![inputs, outputs, routing])
        .expect("restore commands should apply");
    for i in 0..4 {
        assert_eq!(target.input_labels()[i], source.input_labels()[i]);
        assert_eq!(target.output_labels()[i], source.output_labels()[i]);
        assert_eq!(target.video_routes()[i], source.video_routes()[i]);
    }
    assert_eq!(target.input_labels()[4], "");
    assert_eq!(target.video_routes()[4], 0);
}

#[test]
fn dump_of_full_size_is_rejected() {
    let source = VideoHub::from_hello(&small_hello(4, 4)).expect("failed to parse videohub");
    let dump = source.to_dump(7);
    let same_size = VideoHub::from_hello(&small_hello(4, 4)).expect("failed to parse videohub");
    let r = same_size.import_messages(&dump);
    assert!(matches!(r, Err(HubError::DumpTooLarge)));
}

#[test]
fn label_and_route_commands_carry_entries() {
    let m = label_set_message(
        &VideoHubLabelType::Input,
        &vec![VideoHubLabel {
            id: 2,
            name: "studio".to_string(),
        }],
    );
    if let HubMessage::InputLabels(list) = &m {
        assert_eq!(list.labels.len(), 1);
        assert_eq!(list.labels[0].index, 2);
        assert_eq!(list.labels[0].name, "studio");
    } else {
        panic!("wrong message kind, {:?}", m);
    }
    let m = route_set_message(&vec![VideoHubRoute {
        destination_id: 1,
        source_id: 3,
    }]);
    assert_eq!(m.to_wire().expect("serializable"), "VIDEO OUTPUT ROUTING:\n1 3\n\n");
}

#[test]
fn preamble_last_version_wins_and_malformed_is_skipped() {
    let msg = Preamble::parse(&vec!["Version: 2.7", "junk line", "Version: 2.8"])
        .expect("Failed to parse version");
    if let HubMessage::Preamble(preamble) = msg {
        assert_eq!(preamble.version, "2.8");
    } else {
        panic!("Parsed message is not preamble, {:?}", msg);
    }
    let msg = Preamble::parse(&vec!["Version: soon"]).expect("Failed to parse version");
    if let HubMessage::Preamble(preamble) = msg {
        assert_eq!(preamble.version, "");
    } else {
        panic!("Parsed message is not preamble, {:?}", msg);
    }
}

#[test]
fn later_entry_for_same_index_wins() {
    let mut hub = VideoHub::from_hello(&small_hello(4, 4)).expect("failed to parse videohub");
    hub.apply_response("INPUT LABELS:\n2 first\n2 second\n\nACK\n\n")
        .expect("echo should apply");
    assert_eq!(hub.input_labels()[2], "second");
}

#[test]
fn new_device_info_resizes_state() {
    let mut hub = VideoHub::from_hello(&small_hello(4, 4)).expect("failed to parse videohub");
    hub.apply_response("INPUT LABELS:\n0 keep me\n\nACK\n\n")
        .expect("echo should apply");
    hub.apply_response(
        "VIDEOHUB DEVICE:\nModel name: bigger\nVideo inputs: 6\nVideo outputs: 6\n\nACK\n\n",
    )
    .expect("device info should apply");
    assert_eq!(hub.input_count(), 6);
    assert_eq!(hub.input_labels().len(), 6);
    assert_eq!(hub.input_labels()[0], "keep me");
    assert_eq!(hub.input_labels()[5], "");
    assert_eq!(hub.model(), "bigger");
    hub.apply_response("VIDEOHUB DEVICE:\nVideo inputs: 2\nVideo outputs: 2\n\nACK\n\n")
        .expect("device info should apply");
    assert_eq!(hub.input_labels().len(), 2);
    assert_eq!(hub.input_labels()[0], "keep me");
}

#[test]
fn command_wire_round_trip() {
    let m = HubMessage::InputLabels(LabelList {
        labels: vec![Label {
            index: 5,
            name: "cam 5".to_string(),
        }],
    });
    let wire = m.to_wire().expect("serializable");
    let msgs = HubMessage::parse_blocks(&wire);
    assert_eq!(msgs.len(), 1);
    if let HubMessage::InputLabels(ll) = &msgs[0] {
        assert_eq!(ll.labels.len(), 1);
        assert_eq!(ll.labels[0].index, 5);
        assert_eq!(ll.labels[0].name, "cam 5");
    } else {
        panic!("wrong message kind, {:?}", msgs[0]);
    }
    let m = HubMessage::VideoRouting(VideoRouting {
        routes: vec![Route {
            destination: 2,
            source: 7,
        }],
    });
    let wire = m.to_wire().expect("serializable");
    let msgs = HubMessage::parse_blocks(&wire);
    assert_eq!(msgs.len(), 1);
    if let HubMessage::VideoRouting(vr) = &msgs[0] {
        assert_eq!(vr.routes.len(), 1);
        assert_eq!(vr.routes[0].destination, 2);
        assert_eq!(vr.routes[0].source, 7);
    } else {
        panic!("wrong message kind, {:?}", msgs[0]);
    }
}

#[test]
fn blank_line_terminator_is_detected() {
    assert!(ends_with_blank_line("ACK\n\n"));
    assert!(!ends_with_blank_line("ACK\n"));
    assert!(!ends_with_blank_line(""));
}
