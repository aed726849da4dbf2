//! Uniformly random selection among the configured upstream resolvers.

use vstd::prelude::*;

verus! {

/// The configured set of upstream resolver addresses: ordered and immutable
/// after startup. Selection fails only on an empty set, a startup-time
/// configuration error.
pub struct UpstreamSet {
    addrs: Vec<String>,
}

impl View for UpstreamSet {
    type V = Seq<Seq<char>>;

    closed spec fn view(&self) -> Seq<Seq<char>> {
        self.addrs@.map_values(|s: String| s@)
    }
}

/// Relies on rand::thread_rng and rand::Rng::gen_range: the drawn value
/// lies below `n`, uniformly over `0..n`; nothing more is assumed of any
/// single draw.
#[verifier::external_body]
fn random_below(n: usize) -> (r: usize)
    requires
        n > 0,
    ensures
        r < n,
{
    rand::Rng::gen_range(&mut rand::thread_rng(), 0..n)
}

impl UpstreamSet {
    /// A set holding the given addresses, in order.
    pub fn new(addrs: Vec<String>) -> (s: Self)
        ensures
            s@ == addrs@.map_values(|a: String| a@),
    {
        UpstreamSet { addrs }
    }

    /// How many upstreams are configured.
    pub fn len(&self) -> (n: usize)
        ensures
            n == self@.len(),
    {
        self.addrs.len()
    }

    /// Whether no upstream is configured.
    pub fn is_empty(&self) -> (r: bool)
        ensures
            r == (self@.len() == 0),
    {
        self.addrs.len() == 0
    }

    /// The address at a given position.
    pub fn get(&self, i: usize) -> (a: &String)
        requires
            i < self@.len(),
        ensures
            a@ == self@[i as int],
    {
        &self.addrs[i]
    }

    /// Picks one configured upstream at random: `None` exactly when the set
    /// is empty, otherwise a member of the set, drawn uniformly by the
    /// random source.
    pub fn choose_upstream(&self) -> (r: Option<&String>)
        ensures
            r is Some <==> self@.len() > 0,
            r matches Some(a) ==> exists|i: int| 0 <= i < self@.len() && a@ == self@[i],
    {
        if self.addrs.len() == 0 {
            None
        } else {
            let i = random_below(self.addrs.len());
            let a = &self.addrs[i];
            proof {
                assert(a@ == self@[i as int]);
            }
            Some(a)
        }
    }
}

} // verus!
