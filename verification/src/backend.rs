//! Backends available in this build and construction of a seed deriver

use vstd::prelude::*;

use crate::crypto::{english_mnemonic_of, CpuSeedDeriver};
use crate::domain::{backend_name, BackendKind, SecretMnemonic};
use crate::error::RecoverError;
use crate::text::owned;

verus! {

/// Accelerated backends compiled into this executable: none, as this build
/// holds no GPU runtime
fn compiled_cube_backends() -> (backends: Vec<BackendKind>)
    ensures
        backends@ == Seq::<BackendKind>::empty(),
{
    Vec::new()
}

/// Backends compiled into this executable on the current platform: the CPU,
/// then the accelerated ones
pub fn available_backends() -> (backends: Vec<BackendKind>)
    ensures
        backends@ == seq![BackendKind::Cpu],
{
    let mut backends: Vec<BackendKind> = Vec::new();
    backends.push(BackendKind::Cpu);
    let mut accelerated = compiled_cube_backends();
    backends.append(&mut accelerated);
    assert(backends@ =~= seq![BackendKind::Cpu]);
    backends
}

/// Construct a seed deriver for a concrete backend
///
/// `auto` must be resolved first; a backend that this build does not hold is
/// unavailable.
pub fn create_deriver(backend: BackendKind, mnemonic: &SecretMnemonic) -> (result: Result<
    CpuSeedDeriver,
    RecoverError,
>)
    ensures
        match backend {
            BackendKind::Cpu => match english_mnemonic_of(mnemonic.view_text()) {
                Ok(phrase) => result is Ok,
                Err(message) => result matches Err(RecoverError::InvalidMnemonic(shown)) && shown@ == message,
            },
            BackendKind::Auto => result matches Err(RecoverError::BackendUnavailable(shown)) && shown@
                == "auto must be resolved before backend construction"@,
            _ => result matches Err(RecoverError::BackendUnavailable(shown)) && shown@ == backend_name(backend),
        },
        result matches Ok(deriver) ==> english_mnemonic_of(mnemonic.view_text()) matches Ok(phrase)
            && deriver.mnemonic_view() == crate::crypto::utf8_chars(phrase) && deriver.batch_size_view() > 0,
{
    match backend {
        BackendKind::Auto => Err(
            RecoverError::BackendUnavailable(owned("auto must be resolved before backend construction")),
        ),
        BackendKind::Cpu => CpuSeedDeriver::new(mnemonic),
        _ => Err(RecoverError::BackendUnavailable(backend.name())),
    }
}

/// Number of candidates measured when a run finds no benchmark for its
/// backend: a small sample on the CPU, a larger one on accelerators
pub fn quick_sample_size(backend: BackendKind) -> (size: usize)
    ensures
        size == match backend {
            BackendKind::Metal | BackendKind::Hybrid | BackendKind::Cuda => 16_384usize,
            _ => 4_096usize,
        },
{
    match backend {
        BackendKind::Cpu | BackendKind::CubeCpu | BackendKind::Auto => 4_096,
        BackendKind::Metal | BackendKind::Hybrid | BackendKind::Cuda => 16_384,
    }
}

} // verus!
