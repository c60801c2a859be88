//! The fixed names by which the platform's resources are found, and the
//! address that hostnames are rewritten to.

use vstd::prelude::*;
use vstd::string::StringExecFns;

verus! {

/// Namespace of the DNS server's configuration and of its instances.
pub const SYSTEM_NAMESPACE: &'static str = "kube-system";

/// Name of the resource that holds the configuration document.
pub const CONFIG_NAME: &'static str = "coredns";

/// Label selector that picks the DNS server's running instances.
pub const INSTANCE_SELECTOR: &'static str = "k8s-app=kube-dns";

/// Name of the environment variable that overrides the rewrite target.
pub const TARGET_VARIABLE: &'static str = "INGRESS_SERVICE";

/// Address of the ingress controller's service, used where nothing overrides
/// it.
pub const DEFAULT_TARGET: &'static str = "ingress-nginx-controller.ingress-nginx.svc.cluster.local";

/// The address that hostnames are rewritten to: the configured one where
/// there is one, else the default.
pub fn target_address(configured: Option<String>) -> (target: String)
    ensures
        match configured {
            Some(address) => target == address,
            None => target@ == DEFAULT_TARGET@,
        },
{
    match configured {
        Some(address) => address,
        None => String::from_str(DEFAULT_TARGET),
    }
}

} // verus!
