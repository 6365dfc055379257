//! The compute pipelines that a model keeps once they are compiled.

use vstd::prelude::*;
use crate::metal::{CompileOutcome, Kernel, MetalContext, MetalError};

verus! {

/// Why a cache could not give a pipeline.
#[derive(Clone, Copy, Debug, PartialEq, Eq, Structural)]
pub enum PipelineError {
    /// The cache has no place for this kernel.
    Unknown(Kernel),
    /// The kernel could not be compiled.
    Compilation(MetalError),
}

/// One place for each kernel that a model uses, filled when the kernel is first needed.
#[derive(Debug)]
pub struct PipelineCache {
    kernels: Vec<Kernel>,
    pipelines: Vec<Option<usize>>,
}

/// The first place from `i` on that belongs to `kernel`.
spec fn place(kernels: Seq<Kernel>, kernel: Kernel, i: int) -> Option<int>
    decreases kernels.len() - i,
{
    if i >= kernels.len() {
        None
    } else if kernels[i] == kernel {
        Some(i)
    } else {
        place(kernels, kernel, i + 1)
    }
}

proof fn lemma_place(kernels: Seq<Kernel>, kernel: Kernel, i: int)
    requires
        0 <= i,
    ensures
        match place(kernels, kernel, i) {
            Some(k) => i <= k < kernels.len() && kernels[k] == kernel,
            None => forall|k: int| i <= k < kernels.len() ==> #[trigger] kernels[k] != kernel,
        },
    decreases kernels.len() - i,
{
    if i < kernels.len() && kernels[i] != kernel {
        lemma_place(kernels, kernel, i + 1);
    }
}

impl PipelineCache {
    pub closed spec fn wf(&self) -> bool {
        self.kernels@.len() == self.pipelines@.len()
    }

    /// The pipeline of `kernel`: `None` for a kernel that has no place here, `Some(None)` for
    /// one that is not compiled yet.
    pub closed spec fn entry(&self, kernel: Kernel) -> Option<Option<usize>> {
        match place(self.kernels@, kernel, 0) {
            Some(i) => Some(self.pipelines@[i]),
            None => None,
        }
    }

    /// A cache with an empty place for each of `kernels`.
    pub fn new(kernels: Vec<Kernel>) -> (r: PipelineCache)
        ensures
            r.wf(),
            forall|kernel: Kernel|
                #![trigger r.entry(kernel)]
                kernels@.contains(kernel) ==> r.entry(kernel) == Some(None::<usize>),
            forall|kernel: Kernel|
                #![trigger r.entry(kernel)]
                !kernels@.contains(kernel) ==> r.entry(kernel) == None::<Option<usize>>,
    {
        let mut pipelines: Vec<Option<usize>> = Vec::new();
        let mut i: usize = 0;
        while i < kernels.len()
            invariant
                i <= kernels@.len(),
                pipelines@.len() == i,
                forall|j: int| 0 <= j < i ==> pipelines@[j] == None::<usize>,
            decreases kernels@.len() - i,
        {
            pipelines.push(None);
            i += 1;
        }
        let r = PipelineCache { kernels, pipelines };
        proof {
            assert forall|kernel: Kernel| #![trigger r.entry(kernel)] kernels@.contains(
                kernel,
            ) implies r.entry(kernel) == Some(None::<usize>) by {
                lemma_place(kernels@, kernel, 0);
            }
            assert forall|kernel: Kernel| #![trigger r.entry(kernel)] !kernels@.contains(
                kernel,
            ) implies r.entry(kernel) == None::<Option<usize>> by {
                lemma_place(kernels@, kernel, 0);
            }
        }
        r
    }

    fn locate(&self, kernel: Kernel) -> (r: Option<usize>)
        requires
            self.wf(),
        ensures
            match place(self.kernels@, kernel, 0) {
                Some(i) => r matches Some(k) && k == i && k < self.kernels@.len(),
                None => r is None,
            },
    {
        let mut i: usize = 0;
        while i < self.kernels.len()
            invariant
                i <= self.kernels@.len(),
                place(self.kernels@, kernel, 0) == place(self.kernels@, kernel, i as int),
            decreases self.kernels@.len() - i,
        {
            if self.kernels[i] == kernel {
                return Some(i);
            }
            i += 1;
        }
        None
    }

    /// The pipeline of `kernel` if it is compiled, so that the device need not be asked.
    pub fn cached(&self, kernel: Kernel) -> (r: Option<usize>)
        requires
            self.wf(),
        ensures
            r == (match self.entry(kernel) {
                Some(pipeline) => pipeline,
                None => None::<usize>,
            }),
    {
        match self.locate(kernel) {
            Some(i) => self.pipelines[i],
            None => None,
        }
    }

    /// The pipeline of `kernel`. One that is compiled is given as it is; else `outcome`, the
    /// device's answer, is what is kept and given.
    pub fn get(&mut self, ctx: &MetalContext, kernel: Kernel, outcome: CompileOutcome) -> (r:
        Result<usize, PipelineError>)
        requires
            old(self).wf(),
        ensures
            final(self).wf(),
            match (old(self).entry(kernel), outcome) {
                (None, _) => r == Err::<usize, PipelineError>(PipelineError::Unknown(kernel)),
                (Some(Some(pipeline)), _) => r == Ok::<usize, PipelineError>(pipeline),
                (Some(None), CompileOutcome::Compiled(pipeline)) => r == Ok::<
                    usize,
                    PipelineError,
                >(pipeline),
                (Some(None), CompileOutcome::SourceRejected) => r == Err::<usize, PipelineError>(
                    PipelineError::Compilation(MetalError::ShaderCompilation),
                ),
                (Some(None), CompileOutcome::FunctionMissing) => r == Err::<usize, PipelineError>(
                    PipelineError::Compilation(MetalError::FunctionNotFound(kernel)),
                ),
                (Some(None), CompileOutcome::PipelineRejected) => r == Err::<usize, PipelineError>(
                    PipelineError::Compilation(MetalError::PipelineCreation),
                ),
            },
            r matches Ok(pipeline) ==> final(self).entry(kernel) == Some(Some(pipeline)),
            r is Err ==> final(self).entry(kernel) == old(self).entry(kernel),
            forall|other: Kernel|
                other != kernel ==> #[trigger] final(self).entry(other) == old(self).entry(other),
    {
        match self.locate(kernel) {
            None => Err(PipelineError::Unknown(kernel)),
            Some(i) => match self.pipelines[i] {
                Some(pipeline) => Ok(pipeline),
                None => match ctx.compile_kernel(kernel, outcome) {
                    Err(e) => Err(PipelineError::Compilation(e)),
                    Ok(pipeline) => {
                        self.pipelines.set(i, Some(pipeline));
                        proof {
                            lemma_place(self.kernels@, kernel, 0);
                            assert forall|other: Kernel| other != kernel implies #[trigger] self.entry(
                                other,
                            ) == old(self).entry(other) by {
                                lemma_place(self.kernels@, other, 0);
                            }
                        }
                        Ok(pipeline)
                    },
                },
            },
        }
    }
}

} // verus!
