use vstd::prelude::*;

verus! {

/// The exchange's answer to a subscription request: the channels it now
/// serves.
pub struct SubConfirmation {
    pub id: u32,
    pub jsonrpc: String,
    pub result: Vec<String>,
    pub testnet: bool,
}

impl SubConfirmation {
    /// Whether `channel` is among the confirmed channels.
    pub fn confirms(&self, channel: &String) -> (r: bool)
        ensures
            r == exists|i: int| 0 <= i < self.result@.len() && #[trigger] self.result@[i]@ == channel@,
    {
        let mut i: usize = 0;
        while i < self.result.len()
            invariant
                i <= self.result@.len(),
                forall|j: int| 0 <= j < i ==> #[trigger] self.result@[j]@ != channel@,
            decreases self.result@.len() - i,
        {
            if self.result[i] == *channel {
                return true;
            }
            i = i + 1;
        }
        false
    }
}

} // verus!
