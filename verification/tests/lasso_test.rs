//! The lasso, with the kernels run on the host.
#![allow(dead_code)]

use anyhow::{Error, Result};
use metal_operators::float::Float32;
use metal_operators::metal::{Argument, Buffer, CompileOutcome, Kernel, Launch, MetalContext, MetalError};
use metal_operators::pipeline::{PipelineCache, PipelineError};
use metal_operators::least_squares as normal;
use metal_operators::lasso as lib;

/// What carries out the work: a device that holds buffers and runs kernels.
trait Device {
    /// Opens a place for the buffers of a piece of work. Those of the work before are
    /// forgotten, unless they are kept.
    fn begin(&mut self) -> usize;
    /// Goes on with the buffers of an earlier piece of work.
    fn resume(&mut self, session: usize);
    /// Keeps the buffers of a piece of work for later.
    fn keep(&mut self, session: usize);
    /// Asks for the pipeline of a kernel.
    fn compile(&mut self, kernel: Kernel) -> CompileOutcome;
    /// What the device said of the last request that failed.
    fn detail(&self) -> String;
    /// Makes a buffer that holds `words`, or fills one that is there.
    fn upload(&mut self, buffer: Buffer, words: &[u32]);
    /// Makes a buffer whose contents nothing has set.
    fn allocate(&mut self, buffer: Buffer);
    /// Runs a kernel and waits for it.
    fn run(&mut self, pipeline: usize, launch: &Launch);
    /// Reads from the start of a buffer.
    fn download(&self, buffer: Buffer, words: usize) -> Vec<u32>;
}

/// The bits of numbers, of which there are no more than buffers can be measured for.
fn bits(values: &[f32]) -> Vec<Float32> {
    check_size(values.len(), 64);
    values.iter().map(|v| bit(*v)).collect()
}

/// The bits of a number.
fn bit(value: f32) -> Float32 {
    Float32 { bits: value.to_bits() }
}

/// The numbers that bits stand for.
fn to_floats(values: &[Float32]) -> Vec<f32> {
    values.iter().map(|v| to_float(*v)).collect()
}

/// The number that bits stand for.
fn to_float(value: Float32) -> f32 {
    f32::from_bits(value.bits)
}

/// An error with this message.
fn error<T>(message: String) -> Result<T> {
    Err(Error::msg(message))
}

fn compilation(kind: MetalError, detail: String) -> Error {
    Error::msg(match kind {
        MetalError::NoDevice => "No Metal device found".to_string(),
        MetalError::ShaderCompilation => format!("Shader compilation failed: {}", detail),
        MetalError::FunctionNotFound(kernel) => {
            format!("Function '{}' not found: {}", kernel.name(), detail)
        }
        MetalError::PipelineCreation => format!("Pipeline creation failed: {}", detail),
    })
}

/// A piece of work that can be gone on with.
struct Suspended {
    ctx: MetalContext,
    session: usize,
}

/// One piece of work: the ledger of its buffers and the device that holds them.
struct Work<'a, D: Device> {
    pub ctx: MetalContext,
    session: usize,
    device: &'a mut D,
}

impl<'a, D: Device> Work<'a, D> {
    fn new(device: &'a mut D) -> Result<Self> {
        let session = device.begin();
        match MetalContext::new(true) {
            Ok(ctx) => Ok(Work { ctx, session, device }),
            Err(e) => Err(compilation(e, String::new())),
        }
    }

    fn resume(device: &'a mut D, suspended: Suspended) -> Self {
        device.resume(suspended.session);
        Work { ctx: suspended.ctx, session: suspended.session, device }
    }

    fn suspend(self) -> Suspended {
        self.device.keep(self.session);
        Suspended { ctx: self.ctx, session: self.session }
    }

    /// Fills a buffer with numbers.
    fn put(&mut self, buffer: Buffer, values: &[f32]) {
        let words: Vec<u32> = values.iter().map(|v| v.to_bits()).collect();
        self.put_words(buffer, &words);
    }

    /// Fills a buffer with words.
    fn put_words(&mut self, buffer: Buffer, words: &[u32]) {
        assert!(self.ctx.write_buffer(&buffer, words.len()));
        self.device.upload(buffer, words);
    }

    /// Makes a buffer whose contents nothing has set.
    fn make(&mut self, buffer: Buffer) {
        self.device.allocate(buffer);
    }

    /// Reads numbers from a buffer.
    fn take(&self, buffer: Buffer, count: usize) -> Vec<f32> {
        self.take_words(buffer, count)
            .into_iter()
            .map(f32::from_bits)
            .collect()
    }

    /// Reads words from a buffer.
    fn take_words(&self, buffer: Buffer, count: usize) -> Vec<u32> {
        assert!(self.ctx.read_buffer(&buffer, count));
        self.device.download(buffer, count)
    }

    /// Runs a kernel whose pipeline the model keeps.
    fn run(&mut self, cache: &mut PipelineCache, launch: &Launch) -> Result<()> {
        let pipeline = match cache.cached(launch.kernel) {
            Some(pipeline) => pipeline,
            None => {
                let outcome = self.device.compile(launch.kernel);
                match cache.get(&self.ctx, launch.kernel, outcome) {
                    Ok(pipeline) => pipeline,
                    Err(PipelineError::Unknown(kernel)) => {
                        return error(format!("Unknown pipeline: {}", kernel.name()));
                    }
                    Err(PipelineError::Compilation(e)) => {
                        return Err(compilation(e, self.device.detail()));
                    }
                }
            }
        };
        self.device.run(pipeline, launch);
        Ok(())
    }

    /// Makes the pipeline of a kernel.
    fn compile(&mut self, kernel: Kernel) -> Result<usize> {
        let outcome = self.device.compile(kernel);
        self.ctx
            .compile_kernel(kernel, outcome)
            .map_err(|e| compilation(e, self.device.detail()))
    }

    /// Runs a kernel whose pipeline was made before.
    fn run_compiled(&mut self, pipeline: usize, launch: &Launch) {
        self.device.run(pipeline, launch);
    }

    /// Runs a kernel whose pipeline is made for this time.
    fn run_once(&mut self, launch: &Launch) -> Result<()> {
        let pipeline = self.compile(launch.kernel)?;
        self.run_compiled(pipeline, launch);
        Ok(())
    }
}

/// Fails where a buffer of `rows` times `columns` elements could not be measured in bytes.
fn check_size(rows: usize, columns: usize) {
    let bytes = rows.checked_mul(columns).and_then(|elements| elements.checked_mul(4));
    assert!(
        bytes.and_then(|bytes| bytes.checked_add(1024)).is_some(),
        "attempt to multiply with overflow"
    );
}

/// A device of the host: each kernel is a plain loop.
struct Host {
    memory: Vec<Vec<u32>>,
    kept: Vec<Vec<Vec<u32>>>,
    session: usize,
    detail: String,
}

impl Host {
    fn new() -> Host {
        Host { memory: Vec::new(), kept: Vec::new(), session: 0, detail: String::new() }
    }

    fn buffer(&self, launch: &Launch, i: usize) -> Buffer {
        match launch.arguments[i] {
            Argument::Memory(buffer) => {
                assert_eq!(self.memory[buffer.id].len() as u64 * 4, buffer.byte_len);
                buffer
            }
            _ => panic!("argument {} of {} is no buffer", i, launch.kernel.name()),
        }
    }

    fn words(&self, launch: &Launch, i: usize) -> Vec<u32> {
        self.memory[self.buffer(launch, i).id].clone()
    }

    fn floats(&self, launch: &Launch, i: usize) -> Vec<f32> {
        self.words(launch, i).into_iter().map(f32::from_bits).collect()
    }

    fn word(&self, launch: &Launch, i: usize) -> usize {
        match launch.arguments[i] {
            Argument::Word(word) => word as usize,
            _ => panic!("argument {} of {} is no word", i, launch.kernel.name()),
        }
    }

    fn number(&self, launch: &Launch, i: usize) -> f32 {
        match launch.arguments[i] {
            Argument::Real(value) => to_float(value),
            _ => panic!("argument {} of {} is no number", i, launch.kernel.name()),
        }
    }

    fn store_words(&mut self, launch: &Launch, i: usize, words: &[u32]) {
        let id = self.buffer(launch, i).id;
        self.memory[id][..words.len()].copy_from_slice(words);
    }

    fn store(&mut self, launch: &Launch, i: usize, values: &[f32]) {
        let words: Vec<u32> = values.iter().map(|v| v.to_bits()).collect();
        self.store_words(launch, i, &words);
    }
}

impl Device for Host {
    fn begin(&mut self) -> usize {
        self.memory.clear();
        self.session = self.kept.len();
        self.session
    }

    fn resume(&mut self, session: usize) {
        self.memory = self.kept[session].clone();
        self.session = session;
    }

    fn keep(&mut self, session: usize) {
        assert_eq!(session, self.session);
        if session == self.kept.len() {
            self.kept.push(Vec::new());
        }
        self.kept[session] = self.memory.clone();
    }

    fn compile(&mut self, _kernel: Kernel) -> CompileOutcome {
        CompileOutcome::Compiled(0)
    }

    fn detail(&self) -> String {
        self.detail.clone()
    }

    fn upload(&mut self, buffer: Buffer, words: &[u32]) {
        self.allocate(buffer);
        self.memory[buffer.id][..words.len()].copy_from_slice(words);
    }

    fn allocate(&mut self, buffer: Buffer) {
        while self.memory.len() <= buffer.id {
            self.memory.push(Vec::new());
        }
        self.memory[buffer.id] = vec![0xffff_ffff; buffer.byte_len as usize / 4];
    }

    fn run(&mut self, _pipeline: usize, launch: &Launch) {
        assert!(launch.groups.width > 0 || launch.groups.height > 0);
        assert!(launch.threadgroup_bytes <= 32768);
        self.execute(launch);
    }

    fn download(&self, buffer: Buffer, words: usize) -> Vec<u32> {
        self.memory[buffer.id][..words].to_vec()
    }
}

impl Host {
    fn execute(&mut self, launch: &Launch) {
        match launch.kernel {
            Kernel::LinregGramXtxTiled => {
                let x = self.floats(launch, 0);
                let (n, d) = (self.word(launch, 2), self.word(launch, 3));
                let (rows, groups) = (self.word(launch, 4), self.word(launch, 5));
                assert_eq!(launch.groups.width as usize, groups);
                assert_eq!(launch.threadgroup_bytes as usize, rows * d * 4);
                let mut partials = vec![0.0f64; groups * d * d];
                for i in 0..n {
                    let group = (i / rows) % groups;
                    for p in 0..d {
                        for q in 0..d {
                            partials[(group * d + p) * d + q] +=
                                x[i * d + p] as f64 * x[i * d + q] as f64;
                        }
                    }
                }
                let partials: Vec<f32> = partials.into_iter().map(|v| v as f32).collect();
                self.store(launch, 1, &partials);
            }
            Kernel::LinregGramXtxNaive => {
                let x = self.floats(launch, 0);
                let (n, d) = (self.word(launch, 2), self.word(launch, 3));
                assert!(launch.groups.width * launch.threads.width >= (d * d) as u64);
                let mut xtx = vec![0.0f64; d * d];
                for i in 0..n {
                    for p in 0..d {
                        for q in 0..d {
                            xtx[p * d + q] += x[i * d + p] as f64 * x[i * d + q] as f64;
                        }
                    }
                }
                let xtx: Vec<f32> = xtx.into_iter().map(|v| v as f32).collect();
                self.store(launch, 1, &xtx);
            }
            Kernel::LinregGramXty => {
                let x = self.floats(launch, 0);
                let y = self.floats(launch, 1);
                let (n, d, groups) = (
                    self.word(launch, 3),
                    self.word(launch, 4),
                    self.word(launch, 5),
                );
                let width = 2 * d + 2;
                let mut partials = vec![0.0f64; groups * width];
                for i in 0..n {
                    let at = ((i / 256) % groups) * width;
                    for p in 0..d {
                        partials[at + p] += x[i * d + p] as f64 * y[i] as f64;
                        partials[at + d + p] += x[i * d + p] as f64;
                    }
                    partials[at + 2 * d] += 1.0;
                    partials[at + 2 * d + 1] += y[i] as f64;
                }
                let partials: Vec<f32> = partials.into_iter().map(|v| v as f32).collect();
                self.store(launch, 2, &partials);
            }
            Kernel::LinregReduceGram => {
                let xtx_partials = self.floats(launch, 0);
                let xty_partials = self.floats(launch, 1);
                let (g_xtx, g_xty, d) = (
                    self.word(launch, 6),
                    self.word(launch, 7),
                    self.word(launch, 8),
                );
                if g_xtx > 0 {
                    let xtx: Vec<f32> = (0..d * d)
                        .map(|e| (0..g_xtx).map(|g| xtx_partials[g * d * d + e]).sum())
                        .collect();
                    self.store(launch, 2, &xtx);
                }
                let width = 2 * d + 2;
                let sums: Vec<f32> = (0..width)
                    .map(|e| (0..g_xty).map(|g| xty_partials[g * width + e]).sum())
                    .collect();
                self.store(launch, 3, &sums[..d]);
                self.store(launch, 4, &sums[d..2 * d]);
                self.store(launch, 5, &sums[2 * d..]);
            }
            Kernel::LinregPredict => {
                let x = self.floats(launch, 0);
                let w = self.floats(launch, 1);
                let (n, d) = (self.word(launch, 3), self.word(launch, 4));
                let bias = self.number(launch, 5);
                let out: Vec<f32> = (0..n)
                    .map(|i| (0..d).map(|j| x[i * d + j] * w[j]).sum::<f32>() + bias)
                    .collect();
                self.store(launch, 2, &out);
            }
            _ => panic!("{} is no kernel of this model", launch.kernel.name()),
        }
    }
}

fn regression_refused(e: normal::RegressionError) -> Error {
    Error::msg(match e {
        normal::RegressionError::Empty => "Data must be non-empty".to_string(),
        normal::RegressionError::DataLength { n, d, got } => {
            format!("Data length mismatch: expected {} got {}", n * d, got)
        }
        normal::RegressionError::TargetLength { expected, got } => {
            format!("Targets length mismatch: expected {} got {}", expected, got)
        }
        normal::RegressionError::Alpha(_) => {
            "alpha must be a finite, non-negative value".to_string()
        }
        normal::RegressionError::TooManyFeatures(d) => format!(
            "d too large ({}): the Xᵀy element grid exceeds 32 register slots",
            d
        ),
        normal::RegressionError::Dimension { expected, got } => {
            format!("Data dimension mismatch: expected {} got {}", expected, got)
        }
        normal::RegressionError::NotFitted => "Model not fitted".to_string(),
        normal::RegressionError::SystemShape => "solver dimension mismatch".to_string(),
        normal::RegressionError::Singular(pivot) => format!(
            "linear system is singular (pivot {:.3e}); data may be degenerate",
            to_float(pivot)
        ),
    })
}

/// The normal equations, as the device found them.
struct Equations {
    pub xtx: Vec<f32>,
    pub xty: Vec<f32>,
    pub column_sums: Vec<f32>,
    pub count: f32,
    pub target_sum: f32,
}

/// Builds the normal equations.
fn build_equations<D: Device>(
    work: &mut Work<D>,
    cache: &mut PipelineCache,
    pass: &normal::GramPass,
    data: &[f32],
    y: &[f32],
    d: usize,
) -> Result<Equations> {
    let b = &pass.buffers;
    work.put(b.x, data);
    work.put(b.y, y);
    for buffer in [b.xtx, b.xtx_partials, b.xty_partials, b.xty, b.column_sums, b.stats] {
        work.make(buffer);
    }
    work.run(cache, &pass.xtx)?;
    work.run(cache, &pass.xty)?;
    work.run(cache, &pass.reduce)?;
    let stats = work.take(b.stats, 2);
    Ok(Equations {
        xtx: work.take(b.xtx, d * d),
        xty: work.take(b.xty, d),
        column_sums: work.take(b.column_sums, d),
        count: stats[0],
        target_sum: stats[1],
    })
}

fn mean_squared_error(predictions: &[f32], y: &[f32]) -> f32 {
    let total: f32 = predictions
        .iter()
        .zip(y.iter())
        .map(|(p, t)| {
            let r = p - t;
            r * r
        })
        .sum();
    total / y.len() as f32
}

fn determination(predictions: &[f32], y: &[f32]) -> f32 {
    let y_mean = y.iter().sum::<f32>() / y.len() as f32;
    let ss_res: f32 = predictions
        .iter()
        .zip(y.iter())
        .map(|(p, t)| {
            let r = p - t;
            r * r
        })
        .sum();
    let ss_tot: f32 = y
        .iter()
        .map(|t| {
            let r = t - y_mean;
            r * r
        })
        .sum();
    match normal::score_of_constant(bit(ss_res), bit(ss_tot)) {
        Some(score) => to_float(score),
        None => 1.0 - ss_res / ss_tot,
    }
}

/// Applies fitted weights to rows.
fn apply_rows<D: Device>(
    work: &mut Work<D>,
    cache: &mut PipelineCache,
    pass: &normal::PredictPass,
    data: &[f32],
    weights: &[f32],
    n: usize,
) -> Result<Vec<f32>> {
    work.put(pass.x, data);
    work.put(pass.w, weights);
    work.make(pass.out);
    work.run(cache, &pass.launch)?;
    Ok(work.take(pass.out, n))
}

#[derive(Clone)]
struct LassoConfig {
    pub alpha: f32,
    pub fit_intercept: bool,
    pub tol: f32,
    pub max_iterations: usize,
    pub seed: u64,
}

impl Default for LassoConfig {
    fn default() -> Self {
        let config = lib::LassoConfig::default();
        LassoConfig {
            alpha: to_float(config.alpha),
            fit_intercept: config.fit_intercept,
            tol: to_float(config.tol),
            max_iterations: config.max_iterations,
            seed: config.seed,
        }
    }
}

/// Regression with an L1 penalty.
struct Lasso {
    model: lib::Lasso,
}

fn soft_threshold(x: f32, a: f32) -> f32 {
    match lib::soft_threshold(bit(x), bit(a)) {
        lib::Shrinkage::Subtract => x - a,
        lib::Shrinkage::Add => x + a,
        lib::Shrinkage::Zero => 0.0,
    }
}

impl Lasso {
    fn new(config: LassoConfig) -> Self {
        Lasso {
            model: lib::Lasso::new(lib::LassoConfig {
                alpha: bit(config.alpha),
                fit_intercept: config.fit_intercept,
                tol: bit(config.tol),
                max_iterations: config.max_iterations,
                seed: config.seed,
            }),
        }
    }

    fn weights(&self) -> Vec<f32> {
        to_floats(self.model.weights())
    }

    fn coef(&self) -> Vec<f32> {
        to_floats(self.model.coef())
    }

    fn bias(&self) -> f32 {
        to_float(self.model.bias())
    }

    fn intercept(&self) -> f32 {
        to_float(self.model.intercept())
    }

    fn n_features(&self) -> usize {
        self.model.n_features()
    }

    fn n_iter(&self) -> usize {
        self.model.n_iter
    }

    fn converged(&self) -> bool {
        self.model.converged
    }

    fn final_loss(&self) -> f32 {
        to_float(self.model.final_loss)
    }

    fn fit<D: Device>(
        &mut self,
        device: &mut D,
        data: &[f32],
        y: &[f32],
        n: usize,
        d: usize,
    ) -> Result<()> {
        let mut work = Work::new(device)?;
        let pass = self
            .model
            .fit(&mut work.ctx, &bits(data), &bits(y), n, d)
            .map_err(regression_refused)?;
        let equations = build_equations(&mut work, &mut self.model.pipelines, &pass, data, y, d)?;
        let fit_intercept = self.model.config.fit_intercept;
        let a = to_floats(&normal::augment(
            &bits(&equations.xtx),
            &bits(&equations.column_sums),
            bit(equations.count),
            d,
            fit_intercept,
        ));
        let b = to_floats(&normal::augment_side(
            &bits(&equations.xty),
            bit(equations.target_sum),
            fit_intercept,
        ));
        let (w, descent) = self.descend(&a, &b, d);
        let training =
            self.model
                .solved(&mut work.ctx, pass.buffers.x, &bits(&w), &descent, n);
        work.put(training.w, &self.weights());
        work.make(training.out);
        work.run(&mut self.model.pipelines, &training.launch)?;
        let predictions = work.take(training.out, n);
        self.model.finish(bit(mean_squared_error(&predictions, y)));
        Ok(())
    }

    fn descend(&self, a: &[f32], b: &[f32], d: usize) -> (Vec<f32>, lib::Descent) {
        let alpha = to_float(self.model.config.alpha);
        let mut descent = lib::Descent::new(self.model.config, d);
        let dim = descent.dim;
        let mut w = vec![0.0f32; dim];
        while descent.next() {
            let mut changes = Vec::with_capacity(dim);
            for j in 0..dim {
                let mut rho = b[j];
                for k in 0..dim {
                    rho -= a[j * dim + k] * w[k];
                }
                let diag = a[j * dim + j];
                rho += diag * w[j];
                let denom = to_float(lib::divisor(bit(diag)));
                let new_w = if descent.penalized(j) {
                    soft_threshold(rho, alpha) / denom
                } else {
                    rho / denom
                };
                changes.push(bit(new_w - w[j]));
                w[j] = new_w;
            }
            descent.sweep(&changes);
        }
        (w, descent)
    }

    fn predict<D: Device>(
        &mut self,
        device: &mut D,
        data: &[f32],
        n: usize,
        d: usize,
    ) -> Result<Vec<f32>> {
        let mut work = Work::new(device)?;
        let pass = self
            .model
            .predict(&mut work.ctx, &bits(data), n, d)
            .map_err(regression_refused)?;
        let weights = self.weights();
        apply_rows(&mut work, &mut self.model.pipelines, &pass, data, &weights, n)
    }

    fn score<D: Device>(
        &mut self,
        device: &mut D,
        data: &[f32],
        y: &[f32],
        n: usize,
        d: usize,
    ) -> Result<f32> {
        let mut work = Work::new(device)?;
        let pass = self
            .model
            .score(&mut work.ctx, &bits(data), &bits(y), n, d)
            .map_err(regression_refused)?;
        let weights = self.weights();
        let predictions =
            apply_rows(&mut work, &mut self.model.pipelines, &pass, data, &weights, n)?;
        Ok(determination(&predictions, y))
    }
}


// ── CPU reference (same objective, for accuracy comparison only) ──────────

fn reference_threshold(x: f32, a: f32) -> f32 {
    if x > a {
        x - a
    } else if x < -a {
        x + a
    } else {
        0.0
    }
}

/// CPU coordinate descent on the augmented Gram, mirroring the GPU Lasso.
fn cpu_lasso_fit(
    data: &[f32],
    y: &[f32],
    n: usize,
    d: usize,
    alpha: f32,
    fit_intercept: bool,
    max_iter: usize,
    tol: f32,
) -> (Vec<f32>, f32) {
    let dim = if fit_intercept { d + 1 } else { d };
    let mut a = vec![0.0f32; dim * dim];
    let mut b = vec![0.0f32; dim];
    for i in 0..n {
        let row = &data[i * d..(i + 1) * d];
        for j in 0..d {
            for k in 0..d {
                a[j * dim + k] += row[j] * row[k];
            }
            b[j] += row[j] * y[i];
        }
        if fit_intercept {
            for j in 0..d {
                a[j * dim + d] += row[j];
                a[d * dim + j] += row[j];
            }
            a[d * dim + d] += 1.0;
            b[d] += y[i];
        }
    }

    let mut w = vec![0.0f32; dim];
    for _ in 0..max_iter {
        let mut max_change = 0.0f32;
        for j in 0..dim {
            let mut rho = b[j];
            for k in 0..dim {
                rho -= a[j * dim + k] * w[k];
            }
            let diag = a[j * dim + j];
            rho += diag * w[j];
            let denom = if diag.abs() < f32::EPSILON {
                f32::EPSILON
            } else {
                diag
            };
            let new_w = if fit_intercept && j == dim - 1 {
                rho / denom
            } else {
                reference_threshold(rho, alpha) / denom
            };
            max_change = max_change.max((new_w - w[j]).abs());
            w[j] = new_w;
        }
        if max_change <= tol {
            break;
        }
    }
    (w[..d].to_vec(), if fit_intercept { w[d] } else { 0.0 })
}

fn predict(weights: &[f32], bias: f32, data: &[f32], n: usize, d: usize) -> Vec<f32> {
    (0..n)
        .map(|i| {
            let row = &data[i * d..(i + 1) * d];
            bias + row
                .iter()
                .zip(weights.iter())
                .map(|(x, w)| x * w)
                .sum::<f32>()
        })
        .collect()
}

fn max_abs_diff(a: &[f32], b: &[f32]) -> f32 {
    a.iter()
        .zip(b.iter())
        .map(|(x, y)| (x - y).abs())
        .fold(0.0f32, f32::max)
}

// ── Test helpers ───────────────────────────────────────────────────────────

fn make_data(n: usize, d: usize, seed: u64) -> Vec<f32> {
    let mut rng = fastrand::Rng::with_seed(seed);
    (0..n * d).map(|_| rng.f32() * 2.0 - 1.0).collect()
}

fn make_regression(data: &[f32], n: usize, d: usize, w_true: &[f32], b_true: f32) -> Vec<f32> {
    let mut rng = fastrand::Rng::with_seed(7);
    // y = X·w_true + b_true + gaussian-ish noise
    (0..n)
        .map(|i| {
            let row = &data[i * d..(i + 1) * d];
            let mut s = b_true;
            for (x, w) in row.iter().zip(w_true.iter()) {
                s += x * w;
            }
            s + (rng.f32() - 0.5) * 0.2
        })
        .collect()
}

// ── Tests ──────────────────────────────────────────────────────────────────

#[test]
fn lasso_matches_cpu_reference() {
    let mut ctx = Host::new();
    let d = 5;
    let n = 200;
    let data = make_data(n, d, 7);
    let w_true = [1.0, -0.5, 0.0, 2.0, 0.0];
    let y = make_regression(&data, n, d, &w_true, 0.7);

    let alpha = 0.05;
    let max_iter = 2000;
    let tol = 1e-5;
    let mut lasso = Lasso::new(LassoConfig {
        alpha,
        fit_intercept: true,
        tol,
        max_iterations: max_iter,
        seed: 42,
    });
    lasso.fit(&mut ctx, &data, &y, n, d).expect("lasso fit");

    let (cpu_w, cpu_b) = cpu_lasso_fit(&data, &y, n, d, alpha, true, max_iter, tol);

    assert!(
        max_abs_diff(&lasso.weights(), &cpu_w) < 1e-3,
        "weights differ: gpu={:?} cpu={:?}",
        &lasso.weights(),
        &cpu_w
    );
    assert!(
        (lasso.bias() - cpu_b).abs() < 1e-3,
        "bias differ: gpu={:?} cpu={:?}",
        lasso.bias(),
        cpu_b
    );
}

#[test]
fn lasso_zero_alpha_matches_ols() {
    let mut ctx = Host::new();
    let d = 4;
    let n = 300;
    let data = make_data(n, d, 11);
    let w_true = [0.8, 1.2, -1.1, 0.9];
    let y = make_regression(&data, n, d, &w_true, 0.3);

    // alpha = 0 → ordinary least squares (coordinate descent converges there).
    let config = LassoConfig {
        alpha: 0.0,
        fit_intercept: true,
        tol: 1e-5,
        max_iterations: 5000,
        seed: 42,
    };
    let mut lasso = Lasso::new(config);
    lasso.fit(&mut ctx, &data, &y, n, d).expect("lasso fit");

    // At alpha = 0 the Lasso objective is exactly OLS, so verify in-sample R²
    // is essentially perfect for the noise-free-ish synthetic problem.
    let preds = lasso.predict(&mut ctx, &data, n, d).unwrap();
    let r2 = lasso.score(&mut ctx, &data, &y, n, d).unwrap();
    assert!(
        r2 > 0.9,
        "lasso(alpha=0) should approximate OLS well, got r2={r2}"
    );
    let _ = preds;
}

#[test]
fn lasso_high_alpha_induces_sparsity() {
    let mut ctx = Host::new();
    let d = 10;
    let n = 150;
    let data = make_data(n, d, 3);
    let w_true = [1.0, 0.0, 0.5, 0.0, 0.0, 0.0, -1.0, 0.0, 0.2, 0.0];
    let y = make_regression(&data, n, d, &w_true, 0.0);

    // Large alpha shrinks small coefficients to exactly zero.
    let config = LassoConfig {
        alpha: 0.5,
        fit_intercept: true,
        tol: 1e-4,
        max_iterations: 3000,
        seed: 42,
    };
    let mut lasso = Lasso::new(config);
    lasso.fit(&mut ctx, &data, &y, n, d).expect("lasso fit");

    let n_zero = lasso.weights().iter().filter(|w| **w == 0.0).count();
    assert!(
        n_zero >= 4,
        "high alpha should drive coefficients to zero, got {} zeros in {:?}",
        n_zero,
        &lasso.weights()
    );
    assert!(lasso.converged(), "solver should report convergence");
}

#[test]
fn lasso_no_intercept() {
    let mut ctx = Host::new();
    let d = 3;
    let n = 120;
    let data = make_data(n, d, 5);
    let w_true = [1.0, -0.7, 0.4];
    let y = make_regression(&data, n, d, &w_true, 0.0);

    let config = LassoConfig {
        alpha: 0.05,
        fit_intercept: false,
        tol: 1e-5,
        max_iterations: 2000,
        seed: 42,
    };
    let mut lasso = Lasso::new(config);
    lasso.fit(&mut ctx, &data, &y, n, d).expect("lasso fit");
    assert_eq!(lasso.bias(), 0.0);

    let (cpu_w, _) = cpu_lasso_fit(&data, &y, n, d, 0.05, false, 2000, 1e-5);
    assert!(
        max_abs_diff(&lasso.weights(), &cpu_w) < 1e-3,
        "no-intercept weights mismatch: {:?} vs {:?}",
        &lasso.weights(),
        &cpu_w
    );
}

#[test]
fn lasso_predict_and_score() {
    let mut ctx = Host::new();
    let d = 4;
    let n = 150;
    let data = make_data(n, d, 9);
    let w_true = [1.0, 2.0, -1.0, 0.5];
    let y = make_regression(&data, n, d, &w_true, 0.6);

    let mut lasso = Lasso::new(LassoConfig {
        alpha: 0.1,
        fit_intercept: true,
        tol: 1e-5,
        max_iterations: 2000,
        seed: 42,
    });
    lasso.fit(&mut ctx, &data, &y, n, d).expect("lasso fit");

    // Score on the training set should be high for an easy problem.
    let r2 = lasso.score(&mut ctx, &data, &y, n, d).unwrap();
    assert!(r2 > 0.85, "expected high r2, got {r2}");

    // predict should match the closed-form Xw + b from the fitted params.
    let preds = lasso.predict(&mut ctx, &data, n, d).unwrap();
    let ref_preds = predict(&lasso.weights(), lasso.bias(), &data, n, d);
    assert!(max_abs_diff(&preds, &ref_preds) < 1e-4);
}

#[test]
fn lasso_rejects_invalid_inputs() {
    let mut ctx = Host::new();
    let d = 3;
    let n = 10;
    let data = make_data(n, d, 1);
    let mut lasso = Lasso::new(LassoConfig::default());

    // Missing dims.
    assert!(lasso.fit(&mut ctx, &[], &[], 0, 0).is_err());
    // Data length mismatch.
    assert!(lasso.fit(&mut ctx, &data, &vec![0.0f32; n], n, d).is_ok());
    // Bad alpha.
    let bad = Lasso::new(LassoConfig {
        alpha: -1.0,
        ..Default::default()
    });
    let mut bad = bad;
    assert!(bad.fit(&mut ctx, &data, &vec![0.0f32; n], n, d).is_err());
    // Predict before fit.
    let mut unfitted = Lasso::new(LassoConfig::default());
    assert!(unfitted.predict(&mut ctx, &data, n, d).is_err());
}
