//! Linear regression, with the kernels run on the host.
#![allow(dead_code)]

use anyhow::{Error, Result};
use metal_operators::float::Float32;
use metal_operators::metal::{Argument, Buffer, CompileOutcome, Kernel, Launch, MetalContext, MetalError};
use metal_operators::pipeline::{PipelineCache, PipelineError};
use metal_operators::least_squares as normal;
use metal_operators::linear_regression as lib;

/// What carries out the work: a device that holds buffers and runs kernels.
trait Device {
    /// Opens a place for the buffers of a piece of work. Those of the work before are
    /// forgotten, unless they are kept.
    fn begin(&mut self) -> usize;
    /// Goes on with the buffers of an earlier piece of work.
    fn resume(&mut self, session: usize);
    /// Keeps the buffers of a piece of work for later.
    fn keep(&mut self, session: usize);
    /// Asks for the pipeline of a kernel.
    fn compile(&mut self, kernel: Kernel) -> CompileOutcome;
    /// What the device said of the last request that failed.
    fn detail(&self) -> String;
    /// Makes a buffer that holds `words`, or fills one that is there.
    fn upload(&mut self, buffer: Buffer, words: &[u32]);
    /// Makes a buffer whose contents nothing has set.
    fn allocate(&mut self, buffer: Buffer);
    /// Runs a kernel and waits for it.
    fn run(&mut self, pipeline: usize, launch: &Launch);
    /// Reads from the start of a buffer.
    fn download(&self, buffer: Buffer, words: usize) -> Vec<u32>;
}

/// The bits of numbers, of which there are no more than buffers can be measured for.
fn bits(values: &[f32]) -> Vec<Float32> {
    check_size(values.len(), 64);
    values.iter().map(|v| bit(*v)).collect()
}

/// The bits of a number.
fn bit(value: f32) -> Float32 {
    Float32 { bits: value.to_bits() }
}

/// The numbers that bits stand for.
fn to_floats(values: &[Float32]) -> Vec<f32> {
    values.iter().map(|v| to_float(*v)).collect()
}

/// The number that bits stand for.
fn to_float(value: Float32) -> f32 {
    f32::from_bits(value.bits)
}

/// An error with this message.
fn error<T>(message: String) -> Result<T> {
    Err(Error::msg(message))
}

fn compilation(kind: MetalError, detail: String) -> Error {
    Error::msg(match kind {
        MetalError::NoDevice => "No Metal device found".to_string(),
        MetalError::ShaderCompilation => format!("Shader compilation failed: {}", detail),
        MetalError::FunctionNotFound(kernel) => {
            format!("Function '{}' not found: {}", kernel.name(), detail)
        }
        MetalError::PipelineCreation => format!("Pipeline creation failed: {}", detail),
    })
}

/// A piece of work that can be gone on with.
struct Suspended {
    ctx: MetalContext,
    session: usize,
}

/// One piece of work: the ledger of its buffers and the device that holds them.
struct Work<'a, D: Device> {
    pub ctx: MetalContext,
    session: usize,
    device: &'a mut D,
}

impl<'a, D: Device> Work<'a, D> {
    fn new(device: &'a mut D) -> Result<Self> {
        let session = device.begin();
        match MetalContext::new(true) {
            Ok(ctx) => Ok(Work { ctx, session, device }),
            Err(e) => Err(compilation(e, String::new())),
        }
    }

    fn resume(device: &'a mut D, suspended: Suspended) -> Self {
        device.resume(suspended.session);
        Work { ctx: suspended.ctx, session: suspended.session, device }
    }

    fn suspend(self) -> Suspended {
        self.device.keep(self.session);
        Suspended { ctx: self.ctx, session: self.session }
    }

    /// Fills a buffer with numbers.
    fn put(&mut self, buffer: Buffer, values: &[f32]) {
        let words: Vec<u32> = values.iter().map(|v| v.to_bits()).collect();
        self.put_words(buffer, &words);
    }

    /// Fills a buffer with words.
    fn put_words(&mut self, buffer: Buffer, words: &[u32]) {
        assert!(self.ctx.write_buffer(&buffer, words.len()));
        self.device.upload(buffer, words);
    }

    /// Makes a buffer whose contents nothing has set.
    fn make(&mut self, buffer: Buffer) {
        self.device.allocate(buffer);
    }

    /// Reads numbers from a buffer.
    fn take(&self, buffer: Buffer, count: usize) -> Vec<f32> {
        self.take_words(buffer, count)
            .into_iter()
            .map(f32::from_bits)
            .collect()
    }

    /// Reads words from a buffer.
    fn take_words(&self, buffer: Buffer, count: usize) -> Vec<u32> {
        assert!(self.ctx.read_buffer(&buffer, count));
        self.device.download(buffer, count)
    }

    /// Runs a kernel whose pipeline the model keeps.
    fn run(&mut self, cache: &mut PipelineCache, launch: &Launch) -> Result<()> {
        let pipeline = match cache.cached(launch.kernel) {
            Some(pipeline) => pipeline,
            None => {
                let outcome = self.device.compile(launch.kernel);
                match cache.get(&self.ctx, launch.kernel, outcome) {
                    Ok(pipeline) => pipeline,
                    Err(PipelineError::Unknown(kernel)) => {
                        return error(format!("Unknown pipeline: {}", kernel.name()));
                    }
                    Err(PipelineError::Compilation(e)) => {
                        return Err(compilation(e, self.device.detail()));
                    }
                }
            }
        };
        self.device.run(pipeline, launch);
        Ok(())
    }

    /// Makes the pipeline of a kernel.
    fn compile(&mut self, kernel: Kernel) -> Result<usize> {
        let outcome = self.device.compile(kernel);
        self.ctx
            .compile_kernel(kernel, outcome)
            .map_err(|e| compilation(e, self.device.detail()))
    }

    /// Runs a kernel whose pipeline was made before.
    fn run_compiled(&mut self, pipeline: usize, launch: &Launch) {
        self.device.run(pipeline, launch);
    }

    /// Runs a kernel whose pipeline is made for this time.
    fn run_once(&mut self, launch: &Launch) -> Result<()> {
        let pipeline = self.compile(launch.kernel)?;
        self.run_compiled(pipeline, launch);
        Ok(())
    }
}

/// Fails where a buffer of `rows` times `columns` elements could not be measured in bytes.
fn check_size(rows: usize, columns: usize) {
    let bytes = rows.checked_mul(columns).and_then(|elements| elements.checked_mul(4));
    assert!(
        bytes.and_then(|bytes| bytes.checked_add(1024)).is_some(),
        "attempt to multiply with overflow"
    );
}

/// A device of the host: each kernel is a plain loop.
struct Host {
    memory: Vec<Vec<u32>>,
    kept: Vec<Vec<Vec<u32>>>,
    session: usize,
    detail: String,
}

impl Host {
    fn new() -> Host {
        Host { memory: Vec::new(), kept: Vec::new(), session: 0, detail: String::new() }
    }

    fn buffer(&self, launch: &Launch, i: usize) -> Buffer {
        match launch.arguments[i] {
            Argument::Memory(buffer) => {
                assert_eq!(self.memory[buffer.id].len() as u64 * 4, buffer.byte_len);
                buffer
            }
            _ => panic!("argument {} of {} is no buffer", i, launch.kernel.name()),
        }
    }

    fn words(&self, launch: &Launch, i: usize) -> Vec<u32> {
        self.memory[self.buffer(launch, i).id].clone()
    }

    fn floats(&self, launch: &Launch, i: usize) -> Vec<f32> {
        self.words(launch, i).into_iter().map(f32::from_bits).collect()
    }

    fn word(&self, launch: &Launch, i: usize) -> usize {
        match launch.arguments[i] {
            Argument::Word(word) => word as usize,
            _ => panic!("argument {} of {} is no word", i, launch.kernel.name()),
        }
    }

    fn number(&self, launch: &Launch, i: usize) -> f32 {
        match launch.arguments[i] {
            Argument::Real(value) => to_float(value),
            _ => panic!("argument {} of {} is no number", i, launch.kernel.name()),
        }
    }

    fn store_words(&mut self, launch: &Launch, i: usize, words: &[u32]) {
        let id = self.buffer(launch, i).id;
        self.memory[id][..words.len()].copy_from_slice(words);
    }

    fn store(&mut self, launch: &Launch, i: usize, values: &[f32]) {
        let words: Vec<u32> = values.iter().map(|v| v.to_bits()).collect();
        self.store_words(launch, i, &words);
    }
}

impl Device for Host {
    fn begin(&mut self) -> usize {
        self.memory.clear();
        self.session = self.kept.len();
        self.session
    }

    fn resume(&mut self, session: usize) {
        self.memory = self.kept[session].clone();
        self.session = session;
    }

    fn keep(&mut self, session: usize) {
        assert_eq!(session, self.session);
        if session == self.kept.len() {
            self.kept.push(Vec::new());
        }
        self.kept[session] = self.memory.clone();
    }

    fn compile(&mut self, _kernel: Kernel) -> CompileOutcome {
        CompileOutcome::Compiled(0)
    }

    fn detail(&self) -> String {
        self.detail.clone()
    }

    fn upload(&mut self, buffer: Buffer, words: &[u32]) {
        self.allocate(buffer);
        self.memory[buffer.id][..words.len()].copy_from_slice(words);
    }

    fn allocate(&mut self, buffer: Buffer) {
        while self.memory.len() <= buffer.id {
            self.memory.push(Vec::new());
        }
        self.memory[buffer.id] = vec![0xffff_ffff; buffer.byte_len as usize / 4];
    }

    fn run(&mut self, _pipeline: usize, launch: &Launch) {
        assert!(launch.groups.width > 0 || launch.groups.height > 0);
        assert!(launch.threadgroup_bytes <= 32768);
        self.execute(launch);
    }

    fn download(&self, buffer: Buffer, words: usize) -> Vec<u32> {
        self.memory[buffer.id][..words].to_vec()
    }
}

impl Host {
    fn execute(&mut self, launch: &Launch) {
        match launch.kernel {
            Kernel::LinregGramXtxTiled => {
                let x = self.floats(launch, 0);
                let (n, d) = (self.word(launch, 2), self.word(launch, 3));
                let (rows, groups) = (self.word(launch, 4), self.word(launch, 5));
                assert_eq!(launch.groups.width as usize, groups);
                assert_eq!(launch.threadgroup_bytes as usize, rows * d * 4);
                let mut partials = vec![0.0f64; groups * d * d];
                for i in 0..n {
                    let group = (i / rows) % groups;
                    for p in 0..d {
                        for q in 0..d {
                            partials[(group * d + p) * d + q] +=
                                x[i * d + p] as f64 * x[i * d + q] as f64;
                        }
                    }
                }
                let partials: Vec<f32> = partials.into_iter().map(|v| v as f32).collect();
                self.store(launch, 1, &partials);
            }
            Kernel::LinregGramXtxNaive => {
                let x = self.floats(launch, 0);
                let (n, d) = (self.word(launch, 2), self.word(launch, 3));
                assert!(launch.groups.width * launch.threads.width >= (d * d) as u64);
                let mut xtx = vec![0.0f64; d * d];
                for i in 0..n {
                    for p in 0..d {
                        for q in 0..d {
                            xtx[p * d + q] += x[i * d + p] as f64 * x[i * d + q] as f64;
                        }
                    }
                }
                let xtx: Vec<f32> = xtx.into_iter().map(|v| v as f32).collect();
                self.store(launch, 1, &xtx);
            }
            Kernel::LinregGramXty => {
                let x = self.floats(launch, 0);
                let y = self.floats(launch, 1);
                let (n, d, groups) = (
                    self.word(launch, 3),
                    self.word(launch, 4),
                    self.word(launch, 5),
                );
                let width = 2 * d + 2;
                let mut partials = vec![0.0f64; groups * width];
                for i in 0..n {
                    let at = ((i / 256) % groups) * width;
                    for p in 0..d {
                        partials[at + p] += x[i * d + p] as f64 * y[i] as f64;
                        partials[at + d + p] += x[i * d + p] as f64;
                    }
                    partials[at + 2 * d] += 1.0;
                    partials[at + 2 * d + 1] += y[i] as f64;
                }
                let partials: Vec<f32> = partials.into_iter().map(|v| v as f32).collect();
                self.store(launch, 2, &partials);
            }
            Kernel::LinregReduceGram => {
                let xtx_partials = self.floats(launch, 0);
                let xty_partials = self.floats(launch, 1);
                let (g_xtx, g_xty, d) = (
                    self.word(launch, 6),
                    self.word(launch, 7),
                    self.word(launch, 8),
                );
                if g_xtx > 0 {
                    let xtx: Vec<f32> = (0..d * d)
                        .map(|e| (0..g_xtx).map(|g| xtx_partials[g * d * d + e]).sum())
                        .collect();
                    self.store(launch, 2, &xtx);
                }
                let width = 2 * d + 2;
                let sums: Vec<f32> = (0..width)
                    .map(|e| (0..g_xty).map(|g| xty_partials[g * width + e]).sum())
                    .collect();
                self.store(launch, 3, &sums[..d]);
                self.store(launch, 4, &sums[d..2 * d]);
                self.store(launch, 5, &sums[2 * d..]);
            }
            Kernel::LinregPredict => {
                let x = self.floats(launch, 0);
                let w = self.floats(launch, 1);
                let (n, d) = (self.word(launch, 3), self.word(launch, 4));
                let bias = self.number(launch, 5);
                let out: Vec<f32> = (0..n)
                    .map(|i| (0..d).map(|j| x[i * d + j] * w[j]).sum::<f32>() + bias)
                    .collect();
                self.store(launch, 2, &out);
            }
            _ => panic!("{} is no kernel of this model", launch.kernel.name()),
        }
    }
}

fn regression_refused(e: normal::RegressionError) -> Error {
    Error::msg(match e {
        normal::RegressionError::Empty => "Data must be non-empty".to_string(),
        normal::RegressionError::DataLength { n, d, got } => {
            format!("Data length mismatch: expected {} got {}", n * d, got)
        }
        normal::RegressionError::TargetLength { expected, got } => {
            format!("Targets length mismatch: expected {} got {}", expected, got)
        }
        normal::RegressionError::Alpha(_) => {
            "alpha must be a finite, non-negative value".to_string()
        }
        normal::RegressionError::TooManyFeatures(d) => format!(
            "d too large ({}): the Xᵀy element grid exceeds 32 register slots",
            d
        ),
        normal::RegressionError::Dimension { expected, got } => {
            format!("Data dimension mismatch: expected {} got {}", expected, got)
        }
        normal::RegressionError::NotFitted => "Model not fitted".to_string(),
        normal::RegressionError::SystemShape => "solver dimension mismatch".to_string(),
        normal::RegressionError::Singular(pivot) => format!(
            "linear system is singular (pivot {:.3e}); data may be degenerate",
            to_float(pivot)
        ),
    })
}

/// The normal equations, as the device found them.
struct Equations {
    pub xtx: Vec<f32>,
    pub xty: Vec<f32>,
    pub column_sums: Vec<f32>,
    pub count: f32,
    pub target_sum: f32,
}

/// Builds the normal equations.
fn build_equations<D: Device>(
    work: &mut Work<D>,
    cache: &mut PipelineCache,
    pass: &normal::GramPass,
    data: &[f32],
    y: &[f32],
    d: usize,
) -> Result<Equations> {
    let b = &pass.buffers;
    work.put(b.x, data);
    work.put(b.y, y);
    for buffer in [b.xtx, b.xtx_partials, b.xty_partials, b.xty, b.column_sums, b.stats] {
        work.make(buffer);
    }
    work.run(cache, &pass.xtx)?;
    work.run(cache, &pass.xty)?;
    work.run(cache, &pass.reduce)?;
    let stats = work.take(b.stats, 2);
    Ok(Equations {
        xtx: work.take(b.xtx, d * d),
        xty: work.take(b.xty, d),
        column_sums: work.take(b.column_sums, d),
        count: stats[0],
        target_sum: stats[1],
    })
}

fn mean_squared_error(predictions: &[f32], y: &[f32]) -> f32 {
    let total: f32 = predictions
        .iter()
        .zip(y.iter())
        .map(|(p, t)| {
            let r = p - t;
            r * r
        })
        .sum();
    total / y.len() as f32
}

fn determination(predictions: &[f32], y: &[f32]) -> f32 {
    let y_mean = y.iter().sum::<f32>() / y.len() as f32;
    let ss_res: f32 = predictions
        .iter()
        .zip(y.iter())
        .map(|(p, t)| {
            let r = p - t;
            r * r
        })
        .sum();
    let ss_tot: f32 = y
        .iter()
        .map(|t| {
            let r = t - y_mean;
            r * r
        })
        .sum();
    match normal::score_of_constant(bit(ss_res), bit(ss_tot)) {
        Some(score) => to_float(score),
        None => 1.0 - ss_res / ss_tot,
    }
}

/// Applies fitted weights to rows.
fn apply_rows<D: Device>(
    work: &mut Work<D>,
    cache: &mut PipelineCache,
    pass: &normal::PredictPass,
    data: &[f32],
    weights: &[f32],
    n: usize,
) -> Result<Vec<f32>> {
    work.put(pass.x, data);
    work.put(pass.w, weights);
    work.make(pass.out);
    work.run(cache, &pass.launch)?;
    Ok(work.take(pass.out, n))
}

#[derive(Clone)]
struct LinearRegressionConfig {
    pub alpha: f32,
    pub fit_intercept: bool,
    pub tol: f32,
    pub max_iterations: usize,
    pub seed: u64,
}

impl Default for LinearRegressionConfig {
    fn default() -> Self {
        let config = lib::LinearRegressionConfig::default();
        LinearRegressionConfig {
            alpha: to_float(config.alpha),
            fit_intercept: config.fit_intercept,
            tol: to_float(config.tol),
            max_iterations: config.max_iterations,
            seed: config.seed,
        }
    }
}

/// Linear and ridge regression.
struct LinearRegression {
    model: lib::LinearRegression,
}

fn solve_linear_system(a: &[f32], b: &[f32], dim: usize) -> Result<Vec<f32>> {
    let mut system =
        lib::System::new(bits(a), bits(b), dim).map_err(regression_refused)?;
    for col in 0..dim {
        let pv = to_float(system.pivot(col).map_err(regression_refused)?);
        for r in (col + 1)..dim {
            let f = to_float(system.matrix[r * dim + col]) / pv;
            if f == 0.0 {
                continue;
            }
            for c in col..dim {
                let change = f * to_float(system.matrix[col * dim + c]);
                let at = r * dim + c;
                system.matrix[at] = bit(to_float(system.matrix[at]) - change);
            }
            system.side[r] = bit(to_float(system.side[r]) - f * to_float(system.side[col]));
        }
    }
    let mut x = vec![0.0f32; dim];
    for r in (0..dim).rev() {
        let mut s = to_float(system.side[r]);
        for c in (r + 1)..dim {
            s -= to_float(system.matrix[r * dim + c]) * x[c];
        }
        x[r] = s / to_float(system.matrix[r * dim + r]);
    }
    Ok(x)
}

impl LinearRegression {
    fn new(config: LinearRegressionConfig) -> Self {
        LinearRegression {
            model: lib::LinearRegression::new(lib::LinearRegressionConfig {
                alpha: bit(config.alpha),
                fit_intercept: config.fit_intercept,
                tol: bit(config.tol),
                max_iterations: config.max_iterations,
                seed: config.seed,
            }),
        }
    }

    fn weights(&self) -> Vec<f32> {
        to_floats(self.model.weights())
    }

    fn coef(&self) -> Vec<f32> {
        to_floats(self.model.coef())
    }

    fn bias(&self) -> f32 {
        to_float(self.model.bias())
    }

    fn intercept(&self) -> f32 {
        to_float(self.model.intercept())
    }

    fn n_features(&self) -> usize {
        self.model.n_features()
    }

    fn n_iter(&self) -> usize {
        self.model.n_iter
    }

    fn final_loss(&self) -> f32 {
        to_float(self.model.final_loss)
    }

    fn fit<D: Device>(
        &mut self,
        device: &mut D,
        data: &[f32],
        y: &[f32],
        n: usize,
        d: usize,
    ) -> Result<()> {
        let mut work = Work::new(device)?;
        let pass = self
            .model
            .fit(&mut work.ctx, &bits(data), &bits(y), n, d)
            .map_err(regression_refused)?;
        let mut equations =
            build_equations(&mut work, &mut self.model.pipelines, &pass, data, y, d)?;
        let fit_intercept = self.model.config.fit_intercept;
        let alpha = to_float(self.model.config.alpha);
        let max_diag = to_float(lib::largest_diagonal(&bits(&equations.xtx), d));
        let eps = 1e-7f32 * (1.0 + max_diag);
        for j in 0..d {
            equations.xtx[j * d + j] += alpha + eps;
        }
        let a = to_floats(&normal::augment(
            &bits(&equations.xtx),
            &bits(&equations.column_sums),
            bit(equations.count + eps),
            d,
            fit_intercept,
        ));
        let b = to_floats(&normal::augment_side(
            &bits(&equations.xty),
            bit(equations.target_sum),
            fit_intercept,
        ));
        let dim = b.len();
        let solution = solve_linear_system(&a, &b, dim)?;
        let training = self
            .model
            .solved(&mut work.ctx, pass.buffers.x, &bits(&solution), n);
        work.put(training.w, &self.weights());
        work.make(training.out);
        work.run(&mut self.model.pipelines, &training.launch)?;
        let predictions = work.take(training.out, n);
        self.model.finish(bit(mean_squared_error(&predictions, y)));
        Ok(())
    }

    fn predict<D: Device>(
        &mut self,
        device: &mut D,
        data: &[f32],
        n: usize,
        d: usize,
    ) -> Result<Vec<f32>> {
        let mut work = Work::new(device)?;
        let pass = self
            .model
            .predict(&mut work.ctx, &bits(data), n, d)
            .map_err(regression_refused)?;
        let weights = self.weights();
        apply_rows(&mut work, &mut self.model.pipelines, &pass, data, &weights, n)
    }

    fn score<D: Device>(
        &mut self,
        device: &mut D,
        data: &[f32],
        y: &[f32],
        n: usize,
        d: usize,
    ) -> Result<f32> {
        let mut work = Work::new(device)?;
        let pass = self
            .model
            .score(&mut work.ctx, &bits(data), &bits(y), n, d)
            .map_err(regression_refused)?;
        let weights = self.weights();
        let predictions =
            apply_rows(&mut work, &mut self.model.pipelines, &pass, data, &weights, n)?;
        Ok(determination(&predictions, y))
    }
}


// ── CPU reference (for accuracy comparison only) ───────────────────────────

/// Solve `A x = b` (row-major `dim × dim`) with Gaussian elimination +
/// partial pivoting on the CPU.
fn cpu_solve(a: &mut [f32], b: &mut [f32], dim: usize) -> Vec<f32> {
    for col in 0..dim {
        let mut pivot = col;
        let mut best = a[col * dim + col].abs();
        for r in (col + 1)..dim {
            let v = a[r * dim + col].abs();
            if v > best {
                best = v;
                pivot = r;
            }
        }
        if pivot != col {
            for c in 0..dim {
                a.swap(col * dim + c, pivot * dim + c);
            }
            b.swap(col, pivot);
        }
        for r in (col + 1)..dim {
            let f = a[r * dim + col] / a[col * dim + col];
            for c in col..dim {
                a[r * dim + c] -= f * a[col * dim + c];
            }
            b[r] -= f * b[col];
        }
    }
    let mut x = vec![0.0f32; dim];
    for r in (0..dim).rev() {
        let mut s = b[r];
        for c in (r + 1)..dim {
            s -= a[r * dim + c] * x[c];
        }
        x[r] = s / a[r * dim + r];
    }
    x
}

/// CPU ordinary least squares via the normal equations (with optional
/// intercept), matching the GPU formulation.
fn cpu_ols_fit(
    data: &[f32],
    y: &[f32],
    n: usize,
    d: usize,
    alpha: f32,
    fit_intercept: bool,
) -> (Vec<f32>, f32) {
    let dim = if fit_intercept { d + 1 } else { d };
    let mut a = vec![0.0f32; dim * dim];
    let mut b = vec![0.0f32; dim];

    for i in 0..n {
        let row = &data[i * d..(i + 1) * d];
        // XᵀX / Xᵀy
        for j in 0..d {
            for k in 0..d {
                a[j * dim + k] += row[j] * row[k];
            }
            b[j] += row[j] * y[i];
        }
        if fit_intercept {
            for j in 0..d {
                a[j * dim + d] += row[j];
                a[d * dim + j] += row[j];
            }
            a[d * dim + d] += 1.0;
            b[d] += y[i];
        }
    }
    for j in 0..d {
        a[j * dim + j] += alpha;
    }

    let x = cpu_solve(&mut a, &mut b, dim);
    (x[..d].to_vec(), if fit_intercept { x[d] } else { 0.0 })
}

fn cpu_predict(weights: &[f32], bias: f32, data: &[f32], n: usize, d: usize) -> Vec<f32> {
    (0..n)
        .map(|i| {
            let row = &data[i * d..(i + 1) * d];
            bias + row
                .iter()
                .zip(weights.iter())
                .map(|(x, w)| x * w)
                .sum::<f32>()
        })
        .collect()
}

fn cpu_r2(preds: &[f32], y: &[f32]) -> f32 {
    let n = y.len();
    let y_mean = y.iter().sum::<f32>() / n as f32;
    let ss_res: f32 = preds
        .iter()
        .zip(y.iter())
        .map(|(p, t)| (p - t) * (p - t))
        .sum();
    let ss_tot: f32 = y.iter().map(|t| (t - y_mean) * (t - y_mean)).sum();
    1.0 - ss_res / ss_tot
}

// ── Test helpers ────────────────────────────────────────────────────────────

fn make_data(n: usize, d: usize, seed: u64) -> Vec<f32> {
    let mut rng = fastrand::Rng::with_seed(seed);
    (0..n * d).map(|_| rng.f32() * 2.0 - 1.0).collect()
}

/// y = X·w_true + b_true + noise·ε
fn make_regression(
    data: &[f32],
    n: usize,
    d: usize,
    w_true: &[f32],
    b_true: f32,
    noise: f32,
    seed: u64,
) -> Vec<f32> {
    let mut rng = fastrand::Rng::with_seed(seed);
    (0..n)
        .map(|i| {
            let row = &data[i * d..(i + 1) * d];
            b_true
                + row
                    .iter()
                    .zip(w_true.iter())
                    .map(|(x, w)| x * w)
                    .sum::<f32>()
                + noise * (rng.f32() * 2.0 - 1.0)
        })
        .collect()
}

fn rel_err(a: &[f32], b: &[f32]) -> f32 {
    let num: f32 = a.iter().zip(b.iter()).map(|(x, y)| (x - y) * (x - y)).sum();
    let den: f32 = b.iter().map(|x| x * x).sum();
    (num / (den + 1e-12)).sqrt()
}

// ── Tests ───────────────────────────────────────────────────────────────────

#[test]
fn test_linear_basic_fit() {
    let mut ctx = Host::new();

    let (n, d) = (300, 4);
    let data = make_data(n, d, 3);
    let w_true = vec![1.0f32, -2.0, 0.5, 3.0];
    let y = make_regression(&data, n, d, &w_true, 0.7, 0.05, 4);

    let mut lr = LinearRegression::new(LinearRegressionConfig::default());
    lr.fit(&mut ctx, &data, &y, n, d).expect("fit");

    assert_eq!(lr.weights().len(), d, "weights length mismatch");
    assert_eq!(lr.n_features(), d);
    assert!(lr.weights().iter().all(|w| w.is_finite()), "weights finite");
    assert!(lr.bias().is_finite(), "bias finite");
    assert!(lr.final_loss().is_finite(), "mse finite");
}

#[test]
fn test_linear_predict_before_fit_fails() {
    let mut ctx = Host::new();
    let (n, d) = (10, 2);
    let data = make_data(n, d, 1);
    let y = make_data(n, 1, 2);

    let mut lr = LinearRegression::new(LinearRegressionConfig::default());
    assert!(
        lr.predict(&mut ctx, &data, n, d).is_err(),
        "predict should fail before fit"
    );
    assert!(
        lr.score(&mut ctx, &data, &y, n, d).is_err(),
        "score should fail before fit"
    );
}

#[test]
fn test_linear_recovers_known_coefficients() {
    let mut ctx = Host::new();

    // Low noise: recovered coefficients should be very close to ground truth.
    let (n, d) = (2000, 6);
    let data = make_data(n, d, 11);
    let w_true = vec![0.5f32, -1.5, 2.0, 0.25, -3.0, 1.0];
    let b_true = 1.25f32;
    let y = make_regression(&data, n, d, &w_true, b_true, 0.01, 12);

    let mut lr = LinearRegression::new(LinearRegressionConfig::default());
    lr.fit(&mut ctx, &data, &y, n, d).expect("fit");

    let werr = rel_err(&lr.weights(), &w_true);
    assert!(
        werr < 1e-2,
        "weights too far from ground truth: rel_err={}",
        werr
    );
    assert!(
        (lr.bias() - b_true).abs() < 0.05,
        "bias too far from ground truth: {} vs {}",
        lr.bias(),
        b_true
    );
}

#[test]
fn test_linear_accuracy_matches_cpu() {
    let mut ctx = Host::new();

    let (n, d) = (800, 12);
    let data = make_data(n, d, 42);
    let y = make_data(n, 1, 43);

    // GPU
    let mut gpu = LinearRegression::new(LinearRegressionConfig::default());
    gpu.fit(&mut ctx, &data, &y, n, d).expect("GPU fit");
    let gpu_preds = gpu.predict(&mut ctx, &data, n, d).expect("GPU predict");

    // CPU
    let (cpu_w, cpu_b) = cpu_ols_fit(&data, &y, n, d, 0.0, true);
    let cpu_preds = cpu_predict(&cpu_w, cpu_b, &data, n, d);

    let gpu_r2 = cpu_r2(&gpu_preds, &y);
    let cpu_r2 = cpu_r2(&cpu_preds, &y);
    let diff = (gpu_r2 - cpu_r2).abs();
    assert!(
        diff < 1e-4,
        "R² gap between GPU ({}) and CPU ({}) too large: {}",
        gpu_r2,
        cpu_r2,
        diff
    );
}

#[test]
fn test_linear_score_r2() {
    let mut ctx = Host::new();

    // Noise-free data: R² ≈ 1.
    let (n, d) = (500, 4);
    let data = make_data(n, d, 21);
    let w_true = vec![1.0f32, 2.0, -1.0, 0.5];
    let y = make_regression(&data, n, d, &w_true, 0.0, 0.0, 22);

    let mut lr = LinearRegression::new(LinearRegressionConfig::default());
    lr.fit(&mut ctx, &data, &y, n, d).expect("fit");
    let r2 = lr.score(&mut ctx, &data, &y, n, d).expect("score");
    assert!(
        (r2 - 1.0).abs() < 1e-3,
        "expected R² ≈ 1 on noise-free data, got {}",
        r2
    );
}

#[test]
fn test_linear_ridge_shrinks_coefficients() {
    let mut ctx = Host::new();

    let (n, d) = (300, 6);
    let data = make_data(n, d, 31);
    let w_true = vec![5.0f32, -5.0, 5.0, -5.0, 5.0, -5.0];
    let y = make_regression(&data, n, d, &w_true, 0.0, 0.5, 32);

    // OLS
    let mut ols = LinearRegression::new(LinearRegressionConfig::default());
    ols.fit(&mut ctx, &data, &y, n, d).expect("ols fit");
    let norm_ols: f32 = ols.weights().iter().map(|w| w * w).sum();

    // Ridge with strong alpha
    let mut ridge = LinearRegression::new(LinearRegressionConfig {
        alpha: 50.0,
        ..Default::default()
    });
    ridge.fit(&mut ctx, &data, &y, n, d).expect("ridge fit");
    let norm_ridge: f32 = ridge.weights().iter().map(|w| w * w).sum();

    assert!(
        norm_ridge < norm_ols,
        "ridge should shrink coefficients: {} vs {}",
        norm_ridge,
        norm_ols
    );
}

#[test]
fn test_linear_no_intercept() {
    let mut ctx = Host::new();

    let (n, d) = (400, 3);
    let data = make_data(n, d, 51);
    let w_true = vec![2.0f32, -1.0, 0.5];
    let y = make_regression(&data, n, d, &w_true, 0.0, 0.05, 52);

    let mut lr = LinearRegression::new(LinearRegressionConfig {
        fit_intercept: false,
        ..Default::default()
    });
    lr.fit(&mut ctx, &data, &y, n, d).expect("fit");

    assert_eq!(lr.bias(), 0.0, "bias should be zero without intercept");
    let werr = rel_err(&lr.weights(), &w_true);
    assert!(
        werr < 1e-2,
        "weights too far from ground truth without intercept: rel_err={}",
        werr
    );
}

#[test]
fn test_linear_deterministic() {
    let mut ctx = Host::new();

    let (n, d) = (200, 8);
    let data = make_data(n, d, 61);
    let y = make_data(n, 1, 62);

    let config = LinearRegressionConfig::default();

    let mut m1 = LinearRegression::new(config.clone());
    m1.fit(&mut ctx, &data, &y, n, d).expect("fit 1");
    let w1 = m1.weights().to_vec();
    let b1 = m1.bias();

    let mut m2 = LinearRegression::new(config.clone());
    m2.fit(&mut ctx, &data, &y, n, d).expect("fit 2");
    let w2 = m2.weights().to_vec();
    let b2 = m2.bias();

    assert_eq!(b1, b2, "bias differs between runs");
    for j in 0..d {
        assert!(
            (w1[j] - w2[j]).abs() < 1e-6,
            "weight[{}] differs: {} vs {}",
            j,
            w1[j],
            w2[j]
        );
    }

    let p1 = m1.predict(&mut ctx, &data, n, d).expect("predict 1");
    let p2 = m2.predict(&mut ctx, &data, n, d).expect("predict 2");
    assert_eq!(p1, p2, "predictions differ between runs");
}

#[test]
fn test_linear_kernel_variants() {
    let mut ctx = Host::new();

    // Sweep shapes across the kernel dispatch ranges (n > d so the system
    // is well-posed):
    //  - d=2   -> tiny Gram (1 threadgroup)
    //  - d=16  -> one threadgroup of the Xᵀy element grid
    //  - d=64  -> multi-threadgroup Gram
    //  - d=128 -> large Gram grid
    //  - d=256 -> element grid spans 2 threadgroups (2d+2 = 514)
    let cases: &[(usize, usize)] = &[
        (400, 2),
        (400, 16),
        (400, 64),
        (300, 128),
        (600, 256),
        (300, 3),
        (400, 8),
    ];

    for &(n, d) in cases {
        let data = make_data(n, d, 100);
        let w_true: Vec<f32> = (0..d).map(|j| (j as f32 + 1.0) * 0.25).collect();
        let y = make_regression(&data, n, d, &w_true, 1.0, 0.1, 101);

        let mut lr = LinearRegression::new(LinearRegressionConfig::default());
        lr.fit(&mut ctx, &data, &y, n, d)
            .unwrap_or_else(|e| panic!("fit failed for n={} d={}: {}", n, d, e));

        assert_eq!(lr.weights().len(), d, "wrong number of weights");
        for &w in &lr.weights() {
            assert!(w.is_finite(), "non-finite weight for n={} d={}", n, d);
        }

        let preds = lr
            .predict(&mut ctx, &data, n, d)
            .unwrap_or_else(|e| panic!("predict failed for n={} d={}: {}", n, d, e));
        assert_eq!(preds.len(), n, "wrong number of predictions");
        for &p in &preds {
            assert!(p.is_finite(), "non-finite prediction for n={} d={}", n, d);
        }

        let r2 = lr
            .score(&mut ctx, &data, &y, n, d)
            .unwrap_or_else(|e| panic!("score failed for n={} d={}: {}", n, d, e));
        assert!(
            r2 >= 0.8,
            "low R² {} for low-noise data at n={} d={}",
            r2,
            n,
            d
        );
    }
}

#[test]
fn test_linear_singular_data() {
    let mut ctx = Host::new();

    // Duplicate columns -> XᵀX singular; the tiny ridge must keep the
    // solve stable (no panic, finite weights).
    let (n, d) = (100, 4);
    let data = make_data(n, d, 71);
    // Make columns 2 and 3 identical to column 0.
    let mut degenerate = data.clone();
    for i in 0..n {
        degenerate[i * d + 2] = degenerate[i * d];
        degenerate[i * d + 3] = degenerate[i * d];
    }
    let y = make_regression(&degenerate, n, d, &[1.0, 1.0, 0.0, 0.0], 0.0, 0.1, 72);

    let mut lr = LinearRegression::new(LinearRegressionConfig::default());
    lr.fit(&mut ctx, &degenerate, &y, n, d)
        .expect("fit on singular data");
    assert!(
        lr.weights().iter().all(|w| w.is_finite()),
        "weights must stay finite on degenerate data"
    );
    assert!(lr.bias().is_finite(), "bias must stay finite");
}
