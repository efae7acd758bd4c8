use ltp::binding::InterfaceResult;
use ltp::interface::{LTPResult, DEP, SDP};

fn strings(v: &[&str]) -> Vec<String> {
    v.iter().map(|s| s.to_string()).collect()
}

fn sample() -> InterfaceResult {
    InterfaceResult(LTPResult {
        seg: Some(strings(&["我", "爱", "赛尔"])),
        pos: Some(strings(&["r", "v", "nz"])),
        ner: Some(strings(&["O", "O", "S-Ni"])),
        dep: Some(vec![
            DEP { arc: 2, rel: "SBV".to_string() },
            DEP { arc: 0, rel: "HED".to_string() },
            DEP { arc: 2, rel: "VOB".to_string() },
        ]),
        sdp: Some(vec![
            SDP { src: 1, tgt: 2, rel: "Agt".to_string() },
            SDP { src: 3, tgt: 2, rel: "Cont".to_string() },
        ]),
        srl: Some(vec![strings(&["O", "O", "O"]), strings(&["A0", "O", "A1"]), strings(&["O", "O", "O"])]),
    })
}

#[test]
fn lib_test_interface() {
    let r = sample();
    assert_eq!(r.len(), 3);
    assert_eq!(r.seg(), &strings(&["我", "爱", "赛尔"]));
    assert_eq!(r.pos()[2], "nz");
    assert_eq!(r.ner()[2], "S-Ni");
    assert_eq!(r.srl(1), &strings(&["A0", "O", "A1"]));
}

#[test]
fn dependency_accessors_read_each_arc() {
    let r = sample();
    assert_eq!(r.dep_arc(0), 2);
    assert_eq!(r.dep_rel(1), "HED");
    assert_eq!(r.sdp_len(), 3);
    assert_eq!(r.sdp_src(1), 3);
    assert_eq!(r.sdp_tgt(1), 2);
    assert_eq!(r.sdp_rel(0), "Agt");
}
