//! Human-readable rendering of interfaces and peers, honoring the
//! secret-redaction flag.

use vstd::prelude::*;
use vstd::slice::slice_index_get;
use crate::duration::{duration_phrase, time_to_english};
use crate::model::{IfaceView, PeerView, WgInterface, WgPeer};
use crate::text::{dec_str_of, u64_to_string};

verus! {

pub open spec fn fwmark_text(m: Option<Seq<char>>) -> Seq<char> {
    match m {
        Option::Some(s) => s,
        Option::None => "off"@,
    }
}

pub open spec fn preshared_text(m: Option<Seq<char>>) -> Seq<char> {
    match m {
        Option::Some(s) => s,
        Option::None => "(none)"@,
    }
}

pub open spec fn bool_text(b: bool) -> Seq<char> {
    if b {
        "true"@
    } else {
        "false"@
    }
}

/// Text of one peer block: key material, endpoint, allowed IPs, handshake
/// age relative to `now`, transfer counters and the keepalive flag.
pub open spec fn peer_text(p: PeerView, now: u64) -> Seq<char> {
    "Public Key: "@ + p.public_key + "\n"@ + "Preshared Key: "@ + preshared_text(
        p.preshared_key,
    ) + "\n"@ + "Endpoint: "@ + p.endpoint + "\n"@ + "Allowed Ips: "@ + p.allowed_ips + "\n"@
        + "Latest handshake: "@ + duration_phrase((now - p.latest_handshake) as u64) + "\n"@
        + "Transfer: "@ + dec_str_of(p.transfer_rx as int) + " B recieved, "@ + dec_str_of(
        p.transfer_tx as int,
    ) + " B sent\n"@ + "Persistent Keepalive: "@ + bool_text(p.persistent_keepalive) + "\n"@
}

/// Peer blocks in stored order, one blank separator line after each.
pub open spec fn peers_text(ps: Seq<PeerView>, now: u64) -> Seq<char>
    decreases ps.len(),
{
    if ps.len() == 0 {
        Seq::<char>::empty()
    } else {
        peers_text(ps.drop_last(), now) + peer_text(ps.last(), now) + "\n"@
    }
}

/// Text before the peer blocks of an enabled interface; the private key
/// appears only when `show_private` is set, else a fixed placeholder.
pub open spec fn iface_head_text(v: IfaceView, show_private: bool) -> Seq<char> {
    "Private Key: "@ + (if show_private {
        v.private_key
    } else {
        "(hidden)"@
    }) + "\n"@ + "Public Key: "@ + v.public_key + "\n"@ + "Listen Port: "@ + dec_str_of(
        v.listen_port as int,
    ) + "\n"@ + "fwmark: "@ + fwmark_text(v.fwmark) + "\n"@ + "----- Peers -----\n"@
}

/// Full rendering of one interface. A disabled interface renders as the
/// fixed down message and nothing else, whatever its other fields hold.
pub open spec fn iface_text(v: IfaceView, show_private: bool, now: u64) -> Seq<char> {
    if !v.enabled {
        "Interface is down."@
    } else {
        iface_head_text(v, show_private) + peers_text(v.peers, now) + " "@
    }
}

/// A disabled interface always renders as exactly the fixed down message:
/// no peer section and no key material, whatever stale fields the record
/// happens to hold.
pub proof fn lemma_render_down(v: IfaceView, show_private: bool, now: u64)
    requires
        !v.enabled,
    ensures
        iface_text(v, show_private, now) == "Interface is down."@,
{
}

/// With the reveal flag off, the rendering of an interface does not depend
/// on its private key: two records equal in every other field render
/// identically, so the redacted output never carries the key.
pub proof fn lemma_render_redacted(a: IfaceView, b: IfaceView, now: u64)
    requires
        a.enabled == b.enabled,
        a.public_key == b.public_key,
        a.listen_port == b.listen_port,
        a.fwmark == b.fwmark,
        a.peers == b.peers,
        a.show_priv == b.show_priv,
    ensures
        iface_text(a, false, now) == iface_text(b, false, now),
{
}

/// With the reveal flag on, an enabled interface's rendering carries the
/// private key verbatim, directly after the "Private Key: " label.
pub proof fn lemma_render_reveals(v: IfaceView, now: u64)
    requires
        v.enabled,
    ensures
        13 + v.private_key.len() <= iface_text(v, true, now).len(),
        iface_text(v, true, now).subrange(13, 13 + v.private_key.len() as int)
            == v.private_key,
{
    reveal_strlit("Private Key: ");
    assert("Private Key: "@.len() == 13);
    assert(iface_text(v, true, now).subrange(13, 13 + v.private_key.len() as int)
        =~= v.private_key);
}

impl WgPeer {
    /// Renders this peer as one text block; handshake age is `now` minus
    /// the last handshake time.
    pub fn render(&self, now: u64) -> (r: String)
        requires
            self.latest_handshake <= now,
        ensures
            r@ == peer_text(self@, now),
    {
        let mut out = String::new();
        out.append("Public Key: ");
        out.append(self.public_key.as_str());
        out.append("\n");
        out.append("Preshared Key: ");
        match &self.preshared_key {
            Option::Some(k) => out.append(k.as_str()),
            Option::None => out.append("(none)"),
        }
        out.append("\n");
        proof {
            assert(out@ =~= "Public Key: "@ + self@.public_key + "\n"@ + "Preshared Key: "@
                + preshared_text(self@.preshared_key) + "\n"@);
        }
        out.append("Endpoint: ");
        out.append(self.endpoint.as_str());
        out.append("\n");
        out.append("Allowed Ips: ");
        out.append(self.allowed_ips.as_str());
        out.append("\n");
        let ghost mid1 = out@;
        out.append("Latest handshake: ");
        let age = time_to_english(now - self.latest_handshake);
        out.append(age.as_str());
        out.append("\n");
        proof {
            assert(out@ =~= mid1 + "Latest handshake: "@ + duration_phrase(
                (now - self@.latest_handshake) as u64,
            ) + "\n"@);
        }
        let ghost mid2 = out@;
        out.append("Transfer: ");
        let rx = u64_to_string(self.transfer_rx);
        out.append(rx.as_str());
        out.append(" B recieved, ");
        let tx = u64_to_string(self.transfer_tx);
        out.append(tx.as_str());
        out.append(" B sent\n");
        out.append("Persistent Keepalive: ");
        out.append(if self.persistent_keepalive {
            "true"
        } else {
            "false"
        });
        out.append("\n");
        proof {
            assert(out@ =~= mid2 + "Transfer: "@ + dec_str_of(self@.transfer_rx as int)
                + " B recieved, "@ + dec_str_of(self@.transfer_tx as int) + " B sent\n"@
                + "Persistent Keepalive: "@ + bool_text(self@.persistent_keepalive) + "\n"@);
            assert(out@ =~= peer_text(self@, now));
        }
        out
    }
}

impl WgInterface {
    /// Renders this interface: the fixed down message when disabled, else
    /// header lines followed by one block per peer in stored order.
    pub fn render(&self, show_private: bool, now: u64) -> (r: String)
        requires
            self@.enabled ==> forall|i: int|
                0 <= i < self@.peers.len() ==> self@.peers[i].latest_handshake <= now,
        ensures
            r@ == iface_text(self@, show_private, now),
    {
        if !self.enabled {
            return String::from_str("Interface is down.");
        }
        let mut out = String::new();
        out.append("Private Key: ");
        if show_private {
            out.append(self.private_key.as_str());
        } else {
            out.append("(hidden)");
        }
        out.append("\n");
        out.append("Public Key: ");
        out.append(self.public_key.as_str());
        out.append("\n");
        let ghost mid1 = out@;
        out.append("Listen Port: ");
        let port = u64_to_string(self.listen_port as u64);
        out.append(port.as_str());
        out.append("\n");
        out.append("fwmark: ");
        match &self.fwmark {
            Option::Some(m) => out.append(m.as_str()),
            Option::None => out.append("off"),
        }
        out.append("\n");
        out.append("----- Peers -----\n");
        proof {
            assert(mid1 =~= "Private Key: "@ + (if show_private {
                self@.private_key
            } else {
                "(hidden)"@
            }) + "\n"@ + "Public Key: "@ + self@.public_key + "\n"@);
            assert(out@ =~= mid1 + "Listen Port: "@ + dec_str_of(self@.listen_port as int)
                + "\n"@ + "fwmark: "@ + fwmark_text(self@.fwmark) + "\n"@
                + "----- Peers -----\n"@);
            assert(out@ =~= iface_head_text(self@, show_private));
            assert(self@.peers.take(0) =~= Seq::<PeerView>::empty());
        }
        let ghost head = iface_head_text(self@, show_private);
        let n = self.peers.len();
        let mut j: usize = 0;
        while j < n
            invariant
                n == self.peers.len(),
                0 <= j <= n,
                self@.enabled,
                forall|i: int|
                    0 <= i < self@.peers.len() ==> self@.peers[i].latest_handshake <= now,
                out@ == head + peers_text(self@.peers.take(j as int), now),
            decreases n - j,
        {
            let p = slice_index_get(self.peers.as_slice(), j);
            proof {
                assert(p@ == self@.peers[j as int]);
            }
            let ptext = p.render(now);
            out.append(ptext.as_str());
            out.append("\n");
            proof {
                let ps = self@.peers;
                assert(ps.take(j + 1).drop_last() =~= ps.take(j as int));
                assert(ps.take(j + 1).last() == ps[j as int]);
                assert(out@ =~= head + peers_text(ps.take(j + 1), now));
            }
            j += 1;
        }
        out.append(" ");
        proof {
            assert(self@.peers.take(n as int) =~= self@.peers);
            assert(out@ =~= iface_text(self@, show_private, now));
        }
        out
    }
}

} // verus!
