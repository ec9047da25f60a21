//! Circuit construction: wraps a body in one onion layer per relay of a
//! path, so that the bytes can be handed to the first hop.

use vstd::prelude::*;
use vstd::utf8::encode_utf8;

use crate::forwarding::{
    build_onion_layer, encodable, is_onion_layer, spec_encode_payload, OnionError, OnionPayload,
    OnionPayloadView, MIN_LAYER_SIZE,
};
use crate::path_selection::PathSelectionError;
use crate::primitives::aead_accepts_len;
use crate::topology::{relay_views, RelayInfo, RelayInfoView};

verus! {

#[derive(Debug)]
pub enum CircuitError {
    PathSelection(PathSelectionError),
    Onion(OnionError),
    EmptyPath,
}

/// What the relay at position `i` of `path` finds in its layer, given the
/// layers `layers` of a circuit carrying `body`: the exit finds the body
/// to deliver; every other relay finds the next relay's address and the
/// next layer.
pub open spec fn hop_payload(
    path: Seq<RelayInfoView>,
    layers: Seq<Seq<u8>>,
    body: Seq<u8>,
    i: int,
) -> OnionPayloadView {
    if i == path.len() - 1 {
        OnionPayloadView::Deliver { body }
    } else {
        OnionPayloadView::Forward { next_hop: path[i + 1].address, body: layers[i + 1] }
    }
}

/// Whether `layers` are the nested layers of a circuit over `path`
/// carrying `body`: one layer per relay, each addressed to that relay's
/// public key and carrying that relay's hop payload.
pub open spec fn is_circuit_layers(layers: Seq<Seq<u8>>, path: Seq<RelayInfoView>, body: Seq<u8>) -> bool {
    &&& path.len() > 0
    &&& layers.len() == path.len()
    &&& forall|i: int|
        0 <= i < path.len() ==> #[trigger] is_onion_layer(
            layers[i],
            path[i].public_key,
            hop_payload(path, layers, body, i),
        )
}

/// Whether `onion` is the outermost layer of a circuit over `path`
/// carrying `body`.
pub open spec fn is_circuit(onion: Seq<u8>, path: Seq<RelayInfoView>, body: Seq<u8>) -> bool {
    exists|layers: Seq<Seq<u8>>| #[trigger] is_circuit_layers(layers, path, body) && layers[0] == onion
}

/// The plaintext length of the layer for the relay at position `i`: the
/// exit's holds a flag and the body; every other relay's holds a flag, a
/// 2-byte length, the next address and the next layer.
pub open spec fn layer_plaintext_len(path: Seq<RelayInfoView>, body_len: nat, i: int) -> nat
    decreases path.len() - i,
{
    if i >= path.len() - 1 {
        1 + body_len
    } else {
        (3 + encode_utf8(path[i + 1].address).len() + MIN_LAYER_SIZE + layer_plaintext_len(
            path,
            body_len,
            i + 1,
        )) as nat
    }
}

/// Whether every relay address of `path` fits a layer's 16-bit length
/// field.
pub open spec fn addresses_fit(path: Seq<RelayInfoView>) -> bool {
    forall|i: int| 0 <= i < path.len() ==> encode_utf8(#[trigger] path[i].address).len() <= 0xffff
}

/// Wraps `final_body` in nested onion layers for `path`, the exit relay's
/// layer innermost, so that only the last relay sees `final_body` and each
/// relay learns only the address of the next hop. The result is sent to
/// `path[0]`.
pub fn build_circuit(path: &[&RelayInfo], final_body: Vec<u8>) -> (r: Result<Vec<u8>, CircuitError>)
    ensures
        path@.len() == 0 <==> r matches Err(CircuitError::EmptyPath),
        path@.len() > 0 ==> (r is Ok <==> aead_accepts_len(
            layer_plaintext_len(relay_views(path@), final_body@.len(), 0) as int,
        )),
        r matches Err(e) ==> (e is EmptyPath || e matches CircuitError::Onion(OnionError::KeyDerivation)),
        r matches Ok(onion) ==> is_circuit(onion@, relay_views(path@), final_body@),
{
    let n = path.len();
    if n == 0 {
        return Err(CircuitError::EmptyPath);
    }
    let ghost views = relay_views(path@);
    let ghost body = final_body@;
    let exit = path[n - 1];
    let deliver = OnionPayload::Deliver { body: final_body };
    let mut layer = match build_onion_layer(&exit.public_key, &deliver) {
        Ok(l) => l,
        Err(e) => {
            proof {
                lemma_accepts_monotone(views, body.len(), 0, n - 1);
            }
            return Err(CircuitError::Onion(e));
        },
    };
    assert(layer_plaintext_len(views, body.len(), n - 1) == 1 + body.len());
    let ghost mut full: Seq<Seq<u8>> = Seq::new(n as nat, |j: int| layer@);
    let mut i: usize = n - 1;
    while i > 0
        invariant
            0 <= i < n == path@.len(),
            views == relay_views(path@),
            body == final_body@,
            full.len() == n,
            full[i as int] == layer@,
            layer@.len() == MIN_LAYER_SIZE + layer_plaintext_len(views, body.len(), i as int),
            aead_accepts_len(layer_plaintext_len(views, body.len(), i as int) as int),
            forall|j: int|
                i <= j < n ==> #[trigger] is_onion_layer(
                    full[j],
                    views[j].public_key,
                    hop_payload(views, full, body, j),
                ),
        decreases i,
    {
        let hop = path[i - 1];
        let next_hop = path[i].address.clone();
        let ghost inner = layer@;
        let payload = OnionPayload::Forward { next_hop, body: layer };
        assert(spec_encode_payload(payload@).len() == layer_plaintext_len(views, body.len(), i - 1))
            by {
            assert(views[i as int] == path@[i as int]@);
        }
        layer = match build_onion_layer(&hop.public_key, &payload) {
            Ok(l) => l,
            Err(e) => {
                proof {
                    assert(!aead_accepts_len(layer_plaintext_len(views, body.len(), i - 1) as int));
                    lemma_accepts_monotone(views, body.len(), 0, i - 1);
                }
                return Err(CircuitError::Onion(e));
            },
        };
        proof {
            let old_full = full;
            full = full.update(i - 1, layer@);
            assert forall|j: int| i - 1 <= j < n implies #[trigger] is_onion_layer(
                full[j],
                views[j].public_key,
                hop_payload(views, full, body, j),
            ) by {
                if j == i - 1 {
                    assert(full[j + 1] == inner);
                    assert(views[j] == path@[j]@);
                    assert(views[j + 1] == path@[j + 1]@);
                } else {
                    assert(full[j] == old_full[j]);
                    assert(hop_payload(views, full, body, j) == hop_payload(views, old_full, body, j))
                        by {
                        if j < n - 1 {
                            assert(full[j + 1] == old_full[j + 1]);
                        }
                    }
                }
            }
        }
        i = i - 1;
    }
    assert(is_circuit_layers(full, views, body));
    Ok(layer)
}

/// If the plaintext of the relay at `i` is accepted by the cipher, so is
/// that of every relay after it: layers only grow outward.
proof fn lemma_accepts_monotone(path: Seq<RelayInfoView>, body_len: nat, i: int, j: int)
    requires
        i <= j,
    ensures
        aead_accepts_len(layer_plaintext_len(path, body_len, i) as int) ==> aead_accepts_len(
            layer_plaintext_len(path, body_len, j) as int,
        ),
    decreases j - i,
{
    if i < j {
        lemma_accepts_monotone(path, body_len, i + 1, j);
        let a = layer_plaintext_len(path, body_len, i + 1) as int;
        let b = layer_plaintext_len(path, body_len, i) as int;
        assert(a <= b);
        vstd::arithmetic::div_mod::lemma_div_is_ordered(a, b, 64);
    }
}

/// Every layer of a circuit is as long as the layer header plus its
/// relay's plaintext.
proof fn lemma_layer_len(layers: Seq<Seq<u8>>, path: Seq<RelayInfoView>, body: Seq<u8>, i: int)
    requires
        is_circuit_layers(layers, path, body),
        0 <= i < path.len(),
    ensures
        spec_encode_payload(hop_payload(path, layers, body, i)).len() == layer_plaintext_len(
            path,
            body.len(),
            i,
        ),
        layers[i].len() == MIN_LAYER_SIZE + layer_plaintext_len(path, body.len(), i),
    decreases path.len() - i,
{
    assert(is_onion_layer(layers[i], path[i].public_key, hop_payload(path, layers, body, i)));
    if i < path.len() - 1 {
        lemma_layer_len(layers, path, body, i + 1);
    }
}

/// The relays of a circuit can peel it hop by hop. When every relay
/// address fits a layer's length field and the cipher accepts the
/// outermost plaintext, the layer for the relay at position `i` is
/// addressed to that relay's public key and carries its hop payload (the
/// next address and the next layer, or, at the exit, the body), and that
/// payload survives encoding: by the contract of `peel_onion_layer`, the
/// relay whose key pair has that public key peels exactly this payload.
pub proof fn lemma_circuit_peels_hop_by_hop(
    layers: Seq<Seq<u8>>,
    path: Seq<RelayInfoView>,
    body: Seq<u8>,
    i: int,
)
    requires
        is_circuit_layers(layers, path, body),
        addresses_fit(path),
        aead_accepts_len(layer_plaintext_len(path, body.len(), 0) as int),
        0 <= i < path.len(),
    ensures
        is_onion_layer(layers[i], path[i].public_key, hop_payload(path, layers, body, i)),
        encodable(hop_payload(path, layers, body, i)),
        aead_accepts_len(spec_encode_payload(hop_payload(path, layers, body, i)).len() as int),
{
    assert(is_onion_layer(layers[i], path[i].public_key, hop_payload(path, layers, body, i)));
    lemma_layer_len(layers, path, body, i);
    lemma_accepts_monotone(path, body.len(), 0, i);
    if i < path.len() - 1 {
        assert(encode_utf8(path[i + 1].address).len() <= 0xffff);
    }
}

} // verus!
