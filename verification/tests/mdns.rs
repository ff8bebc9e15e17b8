use usbfwd::common::mdns::{
    announce_due, collect, encode_name, parse_txt, ptr_rdata, query, read_name, srv_rdata, txt_rdata, Discovered,
    Found, Message, Responder, CLASS_IN, FLAG_UNICAST_OR_FLUSH, SERVICE, TYPE_ANY, TYPE_PTR,
};

#[test]
fn names_round_trip() {
    let mut v = Vec::new();
    encode_name(&mut v, "steamdeck._usbip._tcp.local");
    assert_eq!(v[0], 9);
    let mut pos = 0;
    assert_eq!(
        read_name(&v, &mut pos).unwrap(),
        "steamdeck._usbip._tcp.local"
    );
    assert_eq!(pos, v.len());
}

#[test]
fn compression_pointers_are_followed_and_bounded() {
    // "a.local" at offset 0, then a pointer back to it.
    let mut buf = Vec::new();
    encode_name(&mut buf, "a.local");
    let ptr_at = buf.len();
    buf.push(0xc0);
    buf.push(0x00);
    let mut pos = ptr_at;
    assert_eq!(read_name(&buf, &mut pos).unwrap(), "a.local");
    assert_eq!(pos, ptr_at + 2);

    // A pointer to itself must terminate rather than spin.
    let loop_buf = [0xc0u8, 0x00];
    let mut pos = 0;
    assert_eq!(read_name(&loop_buf, &mut pos), None);
    assert_eq!(pos, 2, "behind the pointer, which was read");
}

#[test]
fn a_name_that_fails_is_read_up_to_its_first_pointer() {
    // A label, a pointer to a label that runs out of the packet, and the position after.
    for (buf, expected) in [
        (&[1u8, b'a', 0xc0, 0x05, 0, 9, b'b'][..], 4),
        (&[1, b'a', 0xc0, 0x40], 4),
        (&[1, b'a', 0xc0, 0x02, 0], 4),
        (&[1, b'a', 0xc0], 0),
        (&[1, b'a'], 0),
        (&[9, b'a'], 0),
        (&[], 0),
    ] {
        let mut pos = 0;
        assert_eq!(read_name(buf, &mut pos), None, "{buf:?}");
        assert_eq!(pos, expected, "{buf:?}");
    }
}

#[test]
fn an_announcement_is_made_again_after_a_minute() {
    assert!(!announce_due(0));
    assert!(!announce_due(60_000_000_000));
    assert!(announce_due(60_000_000_001));
}

#[test]
fn truncated_packets_do_not_panic() {
    let mut v = Vec::new();
    encode_name(&mut v, "steamdeck.local");
    for cut in 0..v.len() {
        let mut pos = 0;
        let _ = read_name(&v[..cut], &mut pos);
    }
}

#[test]
fn a_response_carries_ptr_srv_txt_and_a() {
    let r = Responder {
        instance_fqdn: format!("deck.{SERVICE}"),
        host_fqdn: "deck.local".into(),
        port: 3240,
        addrs: vec![[100, 101, 102, 103]],
        txt: vec!["devices=28de:1304".into()],
    };
    let pkt = r.answer(true, None);
    let mut found = Found::new();
    collect(&pkt, &mut found).expect("parse");
    assert_eq!(found.instances, vec![format!("deck.{SERVICE}")]);
    assert_eq!(found.srv[0].1, 3240);
    assert_eq!(found.srv[0].2, "deck.local");
    assert_eq!(found.txts[0].1, vec!["devices=28de:1304".to_string()]);
    assert_eq!(found.addrs[0].1, [100, 101, 102, 103]);
}

#[test]
fn a_ptr_query_for_our_service_is_recognised() {
    let r = Responder {
        instance_fqdn: format!("deck.{SERVICE}"),
        host_fqdn: "deck.local".into(),
        port: 3240,
        addrs: vec![],
        txt: vec![],
    };
    let mut q = Message::new(0, 0);
    q.question(SERVICE, TYPE_PTR, CLASS_IN);
    assert_eq!(r.match_questions(&q.finish()), Some((true, false, false)));

    let mut q = Message::new(0, 0);
    q.question("_printer._tcp.local", TYPE_PTR, CLASS_IN);
    assert_eq!(r.match_questions(&q.finish()), Some((false, false, false)));

    // The unicast-response bit must be picked up.
    let mut q = Message::new(0, 0);
    q.question(SERVICE, TYPE_ANY, CLASS_IN | FLAG_UNICAST_OR_FLUSH);
    assert_eq!(r.match_questions(&q.finish()), Some((true, false, true)));
}

#[test]
fn our_own_responses_are_not_treated_as_queries() {
    let r = Responder {
        instance_fqdn: format!("deck.{SERVICE}"),
        host_fqdn: "deck.local".into(),
        port: 3240,
        addrs: vec![],
        txt: vec![],
    };
    assert_eq!(r.match_questions(&r.answer(true, None)), None);
}

#[test]
fn txt_strings_round_trip() {
    let e = vec!["a=1".to_string(), "b=two".to_string()];
    assert_eq!(parse_txt(&txt_rdata(&e)), e);
    assert!(parse_txt(&txt_rdata(&[])).is_empty());
}

fn responder() -> Responder {
    Responder::new(
        "deck",
        "deck",
        3240,
        vec![[192, 168, 1, 7], [10, 0, 0, 7]],
        vec!["devices=28de:1304".to_string()],
    )
}

#[test]
fn an_announcement_is_found_by_a_browser() {
    let r = responder();
    assert_eq!(r.instance_fqdn, "deck._usbip._tcp.local");
    assert_eq!(r.host_fqdn, "deck.local");
    let mut found = Found::new();
    assert!(collect(&r.announce(), &mut found).is_some());
    let list = found.browse();
    assert_eq!(
        list,
        vec![Discovered {
            instance: "deck".to_string(),
            host: "deck.local".to_string(),
            port: 3240,
            addrs: vec![[192, 168, 1, 7], [10, 0, 0, 7]],
            txt: vec!["devices=28de:1304".to_string()],
        }]
    );
    assert_eq!(list[0].endpoint(), "192.168.1.7");
    let unnumbered = Discovered {
        addrs: vec![],
        ..list[0].clone()
    };
    assert_eq!(unnumbered.endpoint(), "deck.local");
    // The same announcement again changes nothing.
    assert!(collect(&r.announce(), &mut found).is_some());
    assert_eq!(found.browse()[0].instance, "deck");
    assert_eq!(found.browse().len(), 1);
}

#[test]
fn a_browse_query_is_answered_directly() {
    let r = responder();
    let (answer, unicast) = r.poll_once(&query()).expect("an answer");
    assert!(unicast);
    assert_eq!(answer, r.answer(true, None));
    assert!(r.poll_once(&r.announce()).is_none());
    assert!(r.poll_once(&r.goodbye()).is_none());
    assert!(r.poll_once(&[]).is_none());
    let mut q = Message::new(0, 0);
    q.question("DECK._USBIP._TCP.LOCAL", TYPE_ANY, CLASS_IN);
    let (answer, unicast) = r.poll_once(&q.finish()).expect("names have no case");
    assert!(!unicast);
    assert_eq!(answer, r.answer(false, None));
}

#[test]
fn a_packet_that_ends_early_is_no_announcement() {
    let packet = responder().announce();
    for cut in 0..packet.len() {
        let mut found = Found::new();
        assert!(collect(&packet[..cut], &mut found).is_none(), "{cut}");
    }
}

#[test]
fn labels_that_are_not_utf8_are_still_read() {
    let buf = [3u8, b'a', 0xff, b'b', 0];
    let mut pos = 0;
    let name = read_name(&buf, &mut pos).unwrap();
    assert_eq!(name, "a\u{fffd}b");
    assert_eq!(pos, 5);
}

#[test]
fn record_data_is_laid_out_as_the_wire_wants_it() {
    assert_eq!(ptr_rdata("a.b"), vec![1, b'a', 1, b'b', 0]);
    assert_eq!(srv_rdata(3240, "a"), vec![0, 0, 0, 0, 0x0c, 0xa8, 1, b'a', 0]);
    assert_eq!(txt_rdata(&[]), vec![0]);
    assert_eq!(txt_rdata(&["x=1".to_string()]), vec![3, b'x', b'=', b'1']);
}
