use libp2p::PeerId;
use mpcnet::poly::Polynomial;
use mpcnet::protocol::decode_request;
use mpcnet::protocol::decode_response;
use mpcnet::protocol::encode_request;
use mpcnet::protocol::encode_response;
use mpcnet::protocol::GetShareRequest;
use mpcnet::protocol::GetShareResponse;
use mpcnet::protocol::RefreshShareRequest;
use mpcnet::protocol::RefreshShareResponse;
use mpcnet::protocol::RegisterShareRequest;
use mpcnet::protocol::RegisterShareResponse;
use mpcnet::protocol::Request;
use mpcnet::protocol::Response;

fn request_round_trip(value: &Request) -> Request {
    let buf = encode_request(value);
    decode_request(&buf).unwrap()
}

fn response_round_trip(value: &Response) -> Response {
    let buf = encode_response(value);
    decode_response(&buf).unwrap()
}

#[test]
fn test_serialize_deserialize_get_share_request() {
    let request = GetShareRequest {
        key: "share_id".to_string(),
        peer: PeerId::random().to_bytes(),
        sender: PeerId::random().to_bytes(),
    };
    let value = request_round_trip(&Request::GetShare(request.clone()));
    assert_eq!(value, Request::GetShare(request));
}

#[test]
fn test_serialize_deserialize_get_share_response() {
    let response = GetShareResponse {
        share: (1u8, vec![1, 2, 3, 4]),
        success: true,
    };
    let value = response_round_trip(&Response::GetShare(response.clone()));
    assert_eq!(value, Response::GetShare(response));
}

#[test]
fn test_serialize_deserialize_register_share_request() {
    let request = RegisterShareRequest {
        share: (1u8, vec![1, 2, 3, 4]),
        key: "unique_id".to_string(),
        threshold: 2,
        peer: PeerId::random().to_bytes(),
        sender: PeerId::random().to_bytes(),
    };
    let value = request_round_trip(&Request::RegisterShare(request.clone()));
    assert_eq!(value, Request::RegisterShare(request));
}

#[test]
fn test_serialize_deserialize_register_share_response() {
    let response = RegisterShareResponse { success: true };
    let value = response_round_trip(&Response::RegisterShare(response.clone()));
    assert_eq!(value, Response::RegisterShare(response));
}

#[test]
fn test_serialize_deserialize_request_enum() {
    let get_share_req = Request::GetShare(GetShareRequest {
        key: "share_id".to_string(),
        peer: PeerId::random().to_bytes(),
        sender: PeerId::random().to_bytes(),
    });
    assert_eq!(request_round_trip(&get_share_req), get_share_req);

    let register_share_req = Request::RegisterShare(RegisterShareRequest {
        share: (1u8, vec![1, 2, 3, 4]),
        key: "unique_id".to_string(),
        threshold: 2,
        peer: PeerId::random().to_bytes(),
        sender: PeerId::random().to_bytes(),
    });
    assert_eq!(request_round_trip(&register_share_req), register_share_req);
}

#[test]
fn test_serialize_deserialize_response_enum() {
    let get_share_res = Response::GetShare(GetShareResponse {
        share: (1u8, vec![1, 2, 3, 4]),
        success: true,
    });
    assert_eq!(response_round_trip(&get_share_res), get_share_res);

    let register_share_res = Response::RegisterShare(RegisterShareResponse { success: true });
    assert_eq!(response_round_trip(&register_share_res), register_share_res);
}

#[test]
fn test_serialize_deserialize_polynomial() {
    let poly = Polynomial::new(3, 42);
    let buf = poly.to_bytes();
    let value = Polynomial::from_bytes(&buf);
    assert_eq!(value, poly);
}

#[test]
fn test_serialize_deserialize_refresh_request() {
    let request = Request::RefreshShare(RefreshShareRequest {
        key: "kéy-with-ütf8".to_string(),
        refresh_key: vec![
            Polynomial::from_bytes(&[0, 7, 9]),
            Polynomial::from_bytes(&[0, 1]),
        ],
        peer: PeerId::random().to_bytes(),
        sender: PeerId::random().to_bytes(),
    });
    assert_eq!(request_round_trip(&request), request);

    let response = Response::RefreshShares(RefreshShareResponse { success: false });
    assert_eq!(response_round_trip(&response), response);
}

#[test]
fn test_decode_rejects_malformed_input() {
    // empty input
    assert_eq!(decode_response(&[]), None);
    assert_eq!(decode_request(&[]), None);
    // unknown tag
    assert_eq!(decode_response(&[9]), None);
    assert_eq!(decode_request(&[9]), None);
    // a register response whose flag byte is neither zero nor one
    assert_eq!(decode_response(&[1, 2]), None);
    // a trailing byte after a well-formed response
    let mut buf = encode_response(&Response::RegisterShare(RegisterShareResponse {
        success: true,
    }));
    buf.push(0);
    assert_eq!(decode_response(&buf), None);
    // a get-share request whose key bytes are not UTF-8
    let mut bad = vec![0u8];
    bad.extend_from_slice(&1u64.to_le_bytes());
    bad.push(0xff);
    bad.extend_from_slice(&0u64.to_le_bytes());
    bad.extend_from_slice(&0u64.to_le_bytes());
    assert_eq!(decode_request(&bad), None);
}
