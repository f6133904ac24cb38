use bytes::Bytes;
use osu_proxy::packet::Packet;
use osu_proxy::domain_rewriter::DomainRewriter;
use osu_proxy::plan::{
    forward_method, forwards_request_header, forwards_response_header, plan_request,
    request_body_for_upstream, response_body_for_client, ForwardMethod, RequestPlan, RouteDecision,
};
use osu_proxy::supporter::inject_supporter_into_bancho_response;

fn frame(id: u16, payload: &[u8]) -> Vec<u8> {
    let mut v = vec![(id % 256) as u8, (id / 256) as u8, 0];
    v.extend_from_slice(&(payload.len() as u32).to_le_bytes());
    v.extend_from_slice(payload);
    v
}

#[test]
fn mirror_plan_trims_base_slashes_and_counts_downloads() {
    match plan_request(RouteDecision::HandleLocally, "/d/123", "https://direct.rai.moe//", "", true) {
        RequestPlan::Mirror { url, counts_download } => {
            assert_eq!(url, "https://direct.rai.moe/d/123");
            assert!(counts_download);
        }
        other => panic!("unexpected plan {:?}", other),
    }
    match plan_request(RouteDecision::HandleLocally, "/web/osu-search.php?q=x", "https://m", "", false) {
        RequestPlan::Mirror { url, counts_download } => {
            assert_eq!(url, "https://m/web/osu-search.php?q=x");
            assert!(!counts_download);
        }
        other => panic!("unexpected plan {:?}", other),
    }
}

#[test]
fn upstream_plan_injects_only_for_bancho() {
    match plan_request(RouteDecision::ForwardToUpstream, "/", "", "c.ppy.sh", true) {
        RequestPlan::Upstream { url, inject_supporter } => {
            assert_eq!(url, "https://c.ppy.sh/");
            assert!(inject_supporter);
        }
        other => panic!("unexpected plan {:?}", other),
    }
    match plan_request(RouteDecision::ForwardToUpstream, "/web/x", "", "osu.ppy.sh", true) {
        RequestPlan::Upstream { url, inject_supporter } => {
            assert_eq!(url, "https://osu.ppy.sh/web/x");
            assert!(!inject_supporter);
        }
        other => panic!("unexpected plan {:?}", other),
    }
    match plan_request(RouteDecision::ForwardToUpstream, "/", "", "c.ppy.sh", false) {
        RequestPlan::Upstream { inject_supporter, .. } => assert!(!inject_supporter),
        other => panic!("unexpected plan {:?}", other),
    }
}

#[test]
fn redirect_plan_points_upstream() {
    match plan_request(RouteDecision::RedirectToUpstream, "/home", "", "osu.ppy.sh", false) {
        RequestPlan::Redirect { location } => assert_eq!(location, "https://osu.ppy.sh/home"),
        other => panic!("unexpected plan {:?}", other),
    }
}

#[test]
fn hop_headers_are_not_copied() {
    assert!(!forwards_request_header("host"));
    assert!(!forwards_request_header("Connection"));
    assert!(!forwards_request_header("CONTENT-LENGTH"));
    assert!(forwards_request_header("osu-token"));
    assert!(forwards_request_header("transfer-encoding"));
    assert!(!forwards_response_header("Transfer-Encoding"));
    assert!(!forwards_response_header("connection"));
    assert!(!forwards_response_header("content-length"));
    assert!(forwards_response_header("cho-token"));
    assert!(forwards_response_header("host"));
}

#[test]
fn only_post_is_kept() {
    assert_eq!(forward_method("POST"), ForwardMethod::Post);
    assert_eq!(forward_method("GET"), ForwardMethod::Get);
    assert_eq!(forward_method("PUT"), ForwardMethod::Get);
    assert_eq!(forward_method("post"), ForwardMethod::Get);
    assert_eq!(forward_method("POSTS"), ForwardMethod::Get);
}

#[test]
fn supporter_flag_is_set_in_privileges_packet() {
    let mut body = frame(5, &[1, 0, 0, 0]);
    body.extend(frame(71, &[1, 0, 0, 0]));
    let out = inject_supporter_into_bancho_response(Bytes::from(body));
    let mut expected = frame(5, &[1, 0, 0, 0]);
    expected.extend(frame(71, &[5, 0, 0, 0]));
    assert_eq!(out.to_vec(), expected);
}

#[test]
fn response_without_privileges_packet_is_unchanged() {
    let mut body = frame(5, &[1, 0, 0, 0]);
    body.extend([1, 2]);
    let out = inject_supporter_into_bancho_response(Bytes::from(body.clone()));
    assert_eq!(out.to_vec(), body);
}

#[test]
fn request_body_is_rewritten_forward() {
    let r = DomainRewriter::new("akatsuki.gg");
    let out = request_body_for_upstream(&r, Bytes::from(frame(1, b"c.localhost")));
    assert_eq!(out.to_vec(), frame(1, b"c.akatsuki.gg"));
    assert!(request_body_for_upstream(&r, Bytes::new()).is_empty());
}

#[test]
fn response_body_gets_supporter_then_backward_rewrite() {
    let r = DomainRewriter::new("akatsuki.gg");
    let mut body = frame(71, &[16, 0, 0, 0]);
    body.extend(frame(7, b"c.akatsuki.gg"));
    let out = response_body_for_client(&r, Bytes::from(body.clone()), true);
    let mut expected = frame(71, &[20, 0, 0, 0]);
    expected.extend(frame(7, b"c.localhost"));
    assert_eq!(out.to_vec(), expected);
    let plain = response_body_for_client(&r, Bytes::from(body), false);
    let mut expected = frame(71, &[16, 0, 0, 0]);
    expected.extend(frame(7, b"c.localhost"));
    assert_eq!(plain.to_vec(), expected);
}

#[test]
fn injected_stream_keeps_framing() {
    let mut body = frame(71, &[0, 0, 0, 0]);
    body.extend(frame(71, &[1, 2]));
    body.extend([9]);
    let out = inject_supporter_into_bancho_response(Bytes::from(body));
    let (packets, rest) = Packet::parse_stream(&out);
    assert_eq!(packets.len(), 2);
    assert_eq!(packets[0].payload, vec![4, 0, 0, 0]);
    assert_eq!(packets[1].payload, vec![1, 2]);
    assert_eq!(rest, vec![9]);
}
