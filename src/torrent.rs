//! What the tracker query and the handshake need to know of a torrent.
use vstd::prelude::*;

verus! {

pub trait Torrent {
    spec fn spec_tracker_url(&self) -> Seq<char>;

    spec fn spec_info_hash(&self) -> Seq<u8>;

    spec fn spec_left(&self) -> nat;

    fn tracker_url(&self) -> (r: &str)
        ensures
            r@ == self.spec_tracker_url(),
    ;

    fn info_hash(&self) -> (r: [u8; 20])
        ensures
            r@ == self.spec_info_hash(),
    ;

    fn left(&self) -> (r: usize)
        ensures
            r as nat == self.spec_left(),
    ;
}

} // verus!
