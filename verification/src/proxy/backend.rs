//! The live backend registry entry, built once at startup from a blueprint.
use crate::config::blueprint::{BackendBlueprint, BackendKindBlueprint};
use crate::proxy::lb::{new_model, LbState};
use vstd::prelude::*;

verus! {

/// A backend in the live registry. It owns its runtime state (the load
/// balancer), so per-backend control-plane state can hang off it.
pub struct Backend {
    pub name: String,
    pub prefix: String,
    pub kind: BackendKind,
}

/// Dispatch seam: each variant gets its own handler in the router.
pub enum BackendKind {
    HttpPassthrough { lb: LbState },
}

impl Backend {
    /// Builds a live backend from its validated blueprint, materializing the
    /// load balancer from the resolved strategy and upstreams.
    pub fn from_blueprint(bp: &BackendBlueprint) -> (b: Self)
        ensures
            b.name == bp.name,
            b.prefix == bp.prefix,
            match (b.kind, bp.kind) {
                (
                    BackendKind::HttpPassthrough { lb },
                    BackendKindBlueprint::HttpPassthrough { upstreams, lb: strategy },
                ) => lb@ == new_model(strategy, upstreams@.map_values(|r: String| r@)) && lb@.wf(),
            },
    {
        let kind = match &bp.kind {
            BackendKindBlueprint::HttpPassthrough { upstreams, lb } => {
                let mut replicas: Vec<String> = Vec::new();
                let mut i: usize = 0;
                while i < upstreams.len()
                    invariant
                        i <= upstreams.len(),
                        replicas@ == upstreams@.take(i as int),
                    decreases upstreams.len() - i,
                {
                    replicas.push(upstreams[i].clone());
                    proof {
                        assert(replicas@ =~= upstreams@.take(i + 1));
                    }
                    i = i + 1;
                }
                proof {
                    assert(upstreams@.take(upstreams.len() as int) =~= upstreams@);
                }
                BackendKind::HttpPassthrough { lb: LbState::new(*lb, replicas) }
            },
        };
        Backend { name: bp.name.clone(), prefix: bp.prefix.clone(), kind }
    }
}

} // verus!
