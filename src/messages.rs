use vstd::prelude::*;
use crate::gateway::RedirectEntry;
use crate::pool::SlotId;

verus! {

/// Process options: the address the HTTP server listens on.
pub struct AppOpts {
    pub listen: String,
}

/// Body of a request that asks for a slot for `url`.
pub struct CreateRedirectRequest {
    pub url: String,
}

/// The slot handed out for a create request.
pub struct CreateRedirectResponse {
    pub slot_id: SlotId,
}

/// The target of one slot.
pub struct GetRedirectResponse {
    pub url: String,
}

/// Every live slot with its target.
pub struct GetAllRedirectResponse {
    pub map: Vec<RedirectEntry>,
}

/// Body of a request that resets the clocks of several slots.
pub struct BatchTouchRequest {
    pub slot_ids: Vec<SlotId>,
}

} // verus!
