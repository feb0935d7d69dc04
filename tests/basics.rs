use astro::astroconf::AstroConf;
use astro::msg::{get_gcs_desc, id_of, is_id_valid_descendant_of, is_root_node, parent_id_of, root_id_of, Line, Msg, MsgBody, NodeDesc, Task};
use astro::transceiver::{encode_frame, get_socket_name, pick_data};
use astro::vector::{distance, isqrt, PosVec, Velocity};

fn pv(x: i32, y: i32, z: i32) -> PosVec {
    PosVec { x, y, z }
}

#[test]
fn nid_accessors() {
    let nid = vec![4u32, 2, 9];
    assert_eq!(id_of(&nid), 9);
    assert_eq!(root_id_of(&nid), 4);
    assert!(!is_root_node(&nid));
    assert_eq!(parent_id_of(&nid), Some(2));
    assert_eq!(parent_id_of(&vec![7u32]), None);
    assert!(is_root_node(&vec![7u32]));
    assert!(is_id_valid_descendant_of(5, &nid));
    assert!(!is_id_valid_descendant_of(2, &nid));
}

#[test]
fn node_desc_accessors() {
    let d = NodeDesc { nid: vec![1, 3], p: pv(0, 0, 0), v: Velocity { vx: 0, vy: 0, vz: 0 }, swm: 2, tsk: Some(5) };
    assert_eq!(d.get_id(), 3);
    assert_eq!(d.get_root_id(), 1);
    assert_eq!(d.get_parent_id(), Some(1));
    assert!(d.has_parent_of_id(1));
    assert!(!d.is_free());
    assert!(d.has_task_of_id(5));
    assert!(!d.is_valid_ancestor_of(3));
    assert!(get_gcs_desc().is_gcs());
    assert!(!d.is_gcs());
}

#[test]
fn msg_addressing() {
    let bc = Msg::new_empty_msg(get_gcs_desc());
    assert!(bc.is_for(3));
    let to = Msg::new_to(get_gcs_desc(), 4, MsgBody::Accept);
    assert!(to.is_for(4));
    assert!(!to.is_for(3));
}

#[test]
fn integer_square_root_and_distance() {
    assert_eq!(isqrt(0), 0);
    assert_eq!(isqrt(15), 3);
    assert_eq!(isqrt(16), 4);
    assert_eq!(distance(&pv(0, 0, 0), &pv(3000, 4000, 0)), 5000);
    assert_eq!(distance(&pv(1, 1, 1), &pv(2, 2, 2)), 1);
}

#[test]
fn socket_names_are_zero_padded() {
    assert_eq!(get_socket_name(7), "socket_000007");
    assert_eq!(get_socket_name(123456), "socket_123456");
    assert_eq!(get_socket_name(4294967295), "socket_4294967295");
}

#[test]
fn frames_round_trip_across_reads() {
    let mut bytes = encode_frame(&b"COMM".to_vec(), &b"{\"a\":1}".to_vec());
    assert_eq!(&bytes[0..4], b"COMM");
    assert_eq!(&bytes[4..8], &[7, 0, 0, 0]);
    bytes.extend(encode_frame(&b"GPS_".to_vec(), &b"xy".to_vec()));
    let mut cache: Vec<u8> = Vec::new();
    let first = pick_data(&mut cache, &bytes[..10].to_vec());
    assert_eq!(first.len(), 0);
    assert_eq!(cache.len(), 10);
    let rest = pick_data(&mut cache, &bytes[10..].to_vec());
    assert_eq!(rest.len(), 2);
    assert_eq!(rest[0].channel, b"COMM".to_vec());
    assert_eq!(rest[0].payload, b"{\"a\":1}".to_vec());
    assert_eq!(rest[1].channel, b"GPS_".to_vec());
    assert_eq!(rest[1].payload, b"xy".to_vec());
    assert!(cache.is_empty());
}

#[test]
fn config_validation() {
    let good = AstroConf { id: 1, uav_radius: 100, msg_range: 20000, contact_range: 19000, max_v: 2000 };
    assert!(good.validate().is_ok());
    assert!(AstroConf { id: 0, ..good }.validate().is_err());
    assert!(AstroConf { uav_radius: 0, ..good }.validate().is_err());
}

#[test]
fn line_measures() {
    let l = Line { points: vec![pv(0, 0, 0), pv(3000, 4000, 0), pv(3000, 4000, 1000)], start: true, end: true };
    assert_eq!(l.calc_length(), 6000);
    assert_eq!(l.num_end_points(), 2);
    assert_eq!(l.num_least_uavs(), 2);
    let t = Task { id: 3, lines: vec![l], duration_ms: 10, comm_point: None };
    let c = t.copy();
    assert_eq!(c.lines[0].points.len(), 3);
    assert_eq!(c.id, 3);
}

#[test]
fn velocity_norm_cap() {
    let v = Velocity { vx: 3000, vy: 4000, vz: 0 };
    assert_eq!(v.get_norm_limited(1000), Velocity { vx: 599, vy: 799, vz: 0 });
    assert_eq!(v.get_norm_limited(5000), v);
    let mut w = Velocity { vx: 0, vy: 0, vz: -9000 };
    w.limit_norm_to(3000);
    assert_eq!(w, Velocity { vx: 0, vy: 0, vz: -2999 });
}

#[test]
fn dead_reckoning() {
    let p = astro::vector::advance(&pv(0, 0, 0), &Velocity { vx: 1000, vy: -1000, vz: 7 }, 1500);
    assert_eq!(p, pv(1500, -1500, 10));
    let q = astro::vector::advance(&pv(i32::MAX - 1, 0, 0), &Velocity { vx: 1000, vy: 0, vz: 0 }, 1000);
    assert_eq!(q.x, i32::MAX);
}

#[test]
fn pursuit_speed() {
    let v = astro::vector::pursuit(&pv(0, 0, 0), &pv(0, 30000, 40000), 1000);
    assert_eq!(v, Velocity { vx: 0, vy: 600, vz: 800 });
    assert_eq!(astro::vector::pursuit(&pv(5, 5, 5), &pv(5, 5, 5), 1000), Velocity { vx: 0, vy: 0, vz: 0 });
}

#[test]
fn position_estimate() {
    let mut g = astro::gps::Gps::new(&pv(0, 0, 0), 0);
    assert!(!g.update(&vec![], 10));
    let p = g.predict_pos(&Velocity { vx: 2000, vy: 0, vz: 0 }, 500);
    assert_eq!(p, pv(1000, 0, 0));
    assert_eq!(g.read_pos(), pv(0, 0, 0));
    assert!(g.update(&vec![pv(5, 5, 5), pv(7, 7, 7)], 600));
    assert_eq!(g.read_pos(), pv(7, 7, 7));
    assert_eq!(g.predict_pos(&Velocity { vx: 0, vy: 1000, vz: 0 }, 700), pv(7, 107, 7));
}

#[test]
fn commanded_velocity_is_capped() {
    let mut k = astro::kinetics::Kinetics::new(1000, &Velocity { vx: 0, vy: 0, vz: 0 });
    k.set_v(&Velocity { vx: 0, vy: 500, vz: 0 });
    assert_eq!(k.read_v(), Velocity { vx: 0, vy: 500, vz: 0 });
    k.set_v(&Velocity { vx: 0, vy: 3000, vz: 0 });
    assert_eq!(k.read_v(), Velocity { vx: 0, vy: 999, vz: 0 });
    assert_eq!(astro::vector::norm3d(3, 4, 12), 13);
}

#[test]
fn projections() {
    let v = Velocity { vx: 1000, vy: 500, vz: 0 };
    let p = pv(2000, 0, 0);
    assert_eq!(v.paral_component_to(&p), 1000);
    assert_eq!(v.paral_to(&p), Velocity { vx: 1000, vy: 0, vz: 0 });
    assert_eq!(v.perp_to(&p), Velocity { vx: 0, vy: 500, vz: 0 });
    assert_eq!(v.paral_component_to(&pv(0, -3000, 4000)), -300);
}
