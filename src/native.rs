//! Descriptors of native bundles for a target platform.
use vstd::prelude::*;
use vstd::string::StringExecFns;
use crate::value::{owned, str_eq};

verus! {

/// What a native build of a project would be.
#[derive(Debug)]
pub struct NativeBundle {
    pub target_os: String,
    pub entry_point: String,
    pub binary_size_est: u64,
    pub features_enabled: Vec<String>,
    pub architecture: String,
    pub blueprint_snapshot: String,
}

/// The estimated size and architecture for a target.
pub open spec fn target_profile(os: Seq<char>) -> (u64, Seq<char>) {
    if os == "windows"@ {
        (15_000_000, "x86_64"@)
    } else if os == "macos"@ {
        (12_000_000, "arm64"@)
    } else if os == "linux"@ {
        (10_000_000, "x86_64"@)
    } else {
        (8_000_000, "wasm32"@)
    }
}

/// The snapshot after a rewrite under `strategy`.
pub open spec fn mutated(snapshot: Seq<char>, strategy: Seq<char>) -> Seq<char> {
    if strategy == "performance"@ {
        snapshot + "_REF_V2_OPT"@
    } else if strategy == "layout"@ {
        snapshot + "_REF_FLEX_TO_GRID"@
    } else {
        snapshot + "_MUTATED"@
    }
}

/// Builds native bundle descriptors.
pub struct NativeCompiler;

impl NativeCompiler {
    /// The bundle descriptor for `project_name` on `target_os`.
    pub fn compile_target(project_name: &str, target_os: &str) -> (r: NativeBundle)
        ensures
            r.target_os@ == target_os@,
            r.entry_point@ == project_name@ + "::"@ + target_os@ + "_main"@,
            (r.binary_size_est, r.architecture@) == target_profile(target_os@),
            crate::document::strings_view(r.features_enabled@) == seq!["simd"@, "gpu_accel"@, "native_fs"@],
            r.blueprint_snapshot@ == "OMNIOS::NATIVE::IR::0xDEADC0DE"@,
    {
        let (size, arch) = if str_eq(target_os, "windows") {
            (15_000_000u64, "x86_64")
        } else if str_eq(target_os, "macos") {
            (12_000_000u64, "arm64")
        } else if str_eq(target_os, "linux") {
            (10_000_000u64, "x86_64")
        } else {
            (8_000_000u64, "wasm32")
        };
        let mut entry = owned(project_name);
        entry.append("::");
        entry.append(target_os);
        entry.append("_main");
        let features = vec![owned("simd"), owned("gpu_accel"), owned("native_fs")];
        assert(crate::document::strings_view(features@) =~= seq!["simd"@, "gpu_accel"@, "native_fs"@]);
        NativeBundle {
            target_os: owned(target_os),
            entry_point: entry,
            binary_size_est: size,
            features_enabled: features,
            architecture: owned(arch),
            blueprint_snapshot: owned("OMNIOS::NATIVE::IR::0xDEADC0DE"),
        }
    }

    /// Rewrites an architectural snapshot under a strategy.
    pub fn mutate_blueprint(snapshot: &str, strategy: &str) -> (r: String)
        ensures
            r@ == mutated(snapshot@, strategy@),
    {
        let mut out = owned(snapshot);
        if str_eq(strategy, "performance") {
            out.append("_REF_V2_OPT");
        } else if str_eq(strategy, "layout") {
            out.append("_REF_FLEX_TO_GRID");
        } else {
            out.append("_MUTATED");
        }
        out
    }
}

} // verus!
