//! Data model: one record per WireGuard interface and one per peer.

use vstd::prelude::*;

verus! {

/// Mathematical image of a peer record.
pub ghost struct PeerView {
    pub public_key: Seq<char>,
    pub preshared_key: Option<Seq<char>>,
    pub endpoint: Seq<char>,
    pub allowed_ips: Seq<char>,
    pub latest_handshake: u64,
    pub transfer_rx: u64,
    pub transfer_tx: u64,
    pub persistent_keepalive: bool,
}

/// One peer configured under a parent interface.
#[derive(Debug)]
pub struct WgPeer {
    pub public_key: String,
    pub preshared_key: Option<String>,
    pub endpoint: String,
    pub allowed_ips: String,
    pub latest_handshake: u64,
    pub transfer_rx: u64,
    pub transfer_tx: u64,
    pub persistent_keepalive: bool,
}

impl View for WgPeer {
    type V = PeerView;

    open spec fn view(&self) -> PeerView {
        PeerView {
            public_key: self.public_key@,
            preshared_key: match self.preshared_key {
                Option::Some(k) => Option::Some(k@),
                Option::None => Option::None,
            },
            endpoint: self.endpoint@,
            allowed_ips: self.allowed_ips@,
            latest_handshake: self.latest_handshake,
            transfer_rx: self.transfer_rx,
            transfer_tx: self.transfer_tx,
            persistent_keepalive: self.persistent_keepalive,
        }
    }
}

impl DeepView for WgPeer {
    type V = PeerView;

    open spec fn deep_view(&self) -> PeerView {
        self.view()
    }
}

/// Mathematical image of an interface record.
pub ghost struct IfaceView {
    pub enabled: bool,
    pub private_key: Seq<char>,
    pub public_key: Seq<char>,
    pub listen_port: u16,
    pub fwmark: Option<Seq<char>>,
    pub peers: Seq<PeerView>,
    pub show_priv: bool,
}

/// One WireGuard network interface; `enabled` is true exactly when the
/// interface appeared in the live status dump.
#[derive(Debug)]
pub struct WgInterface {
    pub enabled: bool,
    pub private_key: String,
    pub public_key: String,
    pub listen_port: u16,
    pub fwmark: Option<String>,
    pub peers: Vec<WgPeer>,
    pub show_priv: bool,
}

impl View for WgInterface {
    type V = IfaceView;

    open spec fn view(&self) -> IfaceView {
        IfaceView {
            enabled: self.enabled,
            private_key: self.private_key@,
            public_key: self.public_key@,
            listen_port: self.listen_port,
            fwmark: match self.fwmark {
                Option::Some(m) => Option::Some(m@),
                Option::None => Option::None,
            },
            peers: self.peers.deep_view(),
            show_priv: self.show_priv,
        }
    }
}

impl DeepView for WgInterface {
    type V = IfaceView;

    open spec fn deep_view(&self) -> IfaceView {
        self.view()
    }
}

/// The record a configured-but-down interface carries: everything default,
/// no key material, no peers.
pub open spec fn default_iface_view() -> IfaceView {
    IfaceView {
        enabled: false,
        private_key: Seq::<char>::empty(),
        public_key: Seq::<char>::empty(),
        listen_port: 0,
        fwmark: Option::None,
        peers: Seq::<PeerView>::empty(),
        show_priv: false,
    }
}

impl Default for WgInterface {
    /// A down interface: disabled with empty key material and no peers.
    fn default() -> (r: Self)
        ensures
            r@ == default_iface_view(),
    {
        let r = WgInterface {
            enabled: false,
            private_key: String::new(),
            public_key: String::new(),
            listen_port: 0,
            fwmark: Option::None,
            peers: Vec::new(),
            show_priv: false,
        };
        proof {
            assert(r.peers.deep_view() =~= Seq::<PeerView>::empty());
        }
        r
    }
}

impl WgInterface {
    /// Flips the per-record reveal flag and changes nothing else.
    pub fn toggle_privkey(&mut self)
        ensures
            final(self)@ == (IfaceView { show_priv: !old(self)@.show_priv, ..old(self)@ }),
    {
        self.show_priv = !self.show_priv;
    }
}

} // verus!
