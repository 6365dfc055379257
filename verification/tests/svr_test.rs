//! Support vector regression, with the kernels run on the host.
#![allow(dead_code)]

use anyhow::{Error, Result};
use metal_operators::float::Float32;
use metal_operators::metal::{Argument, Buffer, CompileOutcome, Kernel, Launch, MetalContext, MetalError};
use metal_operators::pipeline::{PipelineCache, PipelineError};
use metal_operators::svm::SVCKernel;
use metal_operators::svr as lib;

/// What carries out the work: a device that holds buffers and runs kernels.
trait Device {
    /// Opens a place for the buffers of a piece of work. Those of the work before are
    /// forgotten, unless they are kept.
    fn begin(&mut self) -> usize;
    /// Goes on with the buffers of an earlier piece of work.
    fn resume(&mut self, session: usize);
    /// Keeps the buffers of a piece of work for later.
    fn keep(&mut self, session: usize);
    /// Asks for the pipeline of a kernel.
    fn compile(&mut self, kernel: Kernel) -> CompileOutcome;
    /// What the device said of the last request that failed.
    fn detail(&self) -> String;
    /// Makes a buffer that holds `words`, or fills one that is there.
    fn upload(&mut self, buffer: Buffer, words: &[u32]);
    /// Makes a buffer whose contents nothing has set.
    fn allocate(&mut self, buffer: Buffer);
    /// Runs a kernel and waits for it.
    fn run(&mut self, pipeline: usize, launch: &Launch);
    /// Reads from the start of a buffer.
    fn download(&self, buffer: Buffer, words: usize) -> Vec<u32>;
}

/// The bits of numbers, of which there are no more than buffers can be measured for.
fn bits(values: &[f32]) -> Vec<Float32> {
    check_size(values.len(), 64);
    values.iter().map(|v| bit(*v)).collect()
}

/// The bits of a number.
fn bit(value: f32) -> Float32 {
    Float32 { bits: value.to_bits() }
}

/// The numbers that bits stand for.
fn to_floats(values: &[Float32]) -> Vec<f32> {
    values.iter().map(|v| to_float(*v)).collect()
}

/// The number that bits stand for.
fn to_float(value: Float32) -> f32 {
    f32::from_bits(value.bits)
}

/// An error with this message.
fn error<T>(message: String) -> Result<T> {
    Err(Error::msg(message))
}

fn compilation(kind: MetalError, detail: String) -> Error {
    Error::msg(match kind {
        MetalError::NoDevice => "No Metal device found".to_string(),
        MetalError::ShaderCompilation => format!("Shader compilation failed: {}", detail),
        MetalError::FunctionNotFound(kernel) => {
            format!("Function '{}' not found: {}", kernel.name(), detail)
        }
        MetalError::PipelineCreation => format!("Pipeline creation failed: {}", detail),
    })
}

/// A piece of work that can be gone on with.
struct Suspended {
    ctx: MetalContext,
    session: usize,
}

/// One piece of work: the ledger of its buffers and the device that holds them.
struct Work<'a, D: Device> {
    pub ctx: MetalContext,
    session: usize,
    device: &'a mut D,
}

impl<'a, D: Device> Work<'a, D> {
    fn new(device: &'a mut D) -> Result<Self> {
        let session = device.begin();
        match MetalContext::new(true) {
            Ok(ctx) => Ok(Work { ctx, session, device }),
            Err(e) => Err(compilation(e, String::new())),
        }
    }

    fn resume(device: &'a mut D, suspended: Suspended) -> Self {
        device.resume(suspended.session);
        Work { ctx: suspended.ctx, session: suspended.session, device }
    }

    fn suspend(self) -> Suspended {
        self.device.keep(self.session);
        Suspended { ctx: self.ctx, session: self.session }
    }

    /// Fills a buffer with numbers.
    fn put(&mut self, buffer: Buffer, values: &[f32]) {
        let words: Vec<u32> = values.iter().map(|v| v.to_bits()).collect();
        self.put_words(buffer, &words);
    }

    /// Fills a buffer with words.
    fn put_words(&mut self, buffer: Buffer, words: &[u32]) {
        assert!(self.ctx.write_buffer(&buffer, words.len()));
        self.device.upload(buffer, words);
    }

    /// Makes a buffer whose contents nothing has set.
    fn make(&mut self, buffer: Buffer) {
        self.device.allocate(buffer);
    }

    /// Reads numbers from a buffer.
    fn take(&self, buffer: Buffer, count: usize) -> Vec<f32> {
        self.take_words(buffer, count)
            .into_iter()
            .map(f32::from_bits)
            .collect()
    }

    /// Reads words from a buffer.
    fn take_words(&self, buffer: Buffer, count: usize) -> Vec<u32> {
        assert!(self.ctx.read_buffer(&buffer, count));
        self.device.download(buffer, count)
    }

    /// Runs a kernel whose pipeline the model keeps.
    fn run(&mut self, cache: &mut PipelineCache, launch: &Launch) -> Result<()> {
        let pipeline = match cache.cached(launch.kernel) {
            Some(pipeline) => pipeline,
            None => {
                let outcome = self.device.compile(launch.kernel);
                match cache.get(&self.ctx, launch.kernel, outcome) {
                    Ok(pipeline) => pipeline,
                    Err(PipelineError::Unknown(kernel)) => {
                        return error(format!("Unknown pipeline: {}", kernel.name()));
                    }
                    Err(PipelineError::Compilation(e)) => {
                        return Err(compilation(e, self.device.detail()));
                    }
                }
            }
        };
        self.device.run(pipeline, launch);
        Ok(())
    }

    /// Makes the pipeline of a kernel.
    fn compile(&mut self, kernel: Kernel) -> Result<usize> {
        let outcome = self.device.compile(kernel);
        self.ctx
            .compile_kernel(kernel, outcome)
            .map_err(|e| compilation(e, self.device.detail()))
    }

    /// Runs a kernel whose pipeline was made before.
    fn run_compiled(&mut self, pipeline: usize, launch: &Launch) {
        self.device.run(pipeline, launch);
    }

    /// Runs a kernel whose pipeline is made for this time.
    fn run_once(&mut self, launch: &Launch) -> Result<()> {
        let pipeline = self.compile(launch.kernel)?;
        self.run_compiled(pipeline, launch);
        Ok(())
    }
}

/// Fails where a buffer of `rows` times `columns` elements could not be measured in bytes.
fn check_size(rows: usize, columns: usize) {
    let bytes = rows.checked_mul(columns).and_then(|elements| elements.checked_mul(4));
    assert!(
        bytes.and_then(|bytes| bytes.checked_add(1024)).is_some(),
        "attempt to multiply with overflow"
    );
}

/// A device of the host: each kernel is a plain loop.
struct Host {
    memory: Vec<Vec<u32>>,
    kept: Vec<Vec<Vec<u32>>>,
    session: usize,
    detail: String,
}

impl Host {
    fn new() -> Host {
        Host { memory: Vec::new(), kept: Vec::new(), session: 0, detail: String::new() }
    }

    fn buffer(&self, launch: &Launch, i: usize) -> Buffer {
        match launch.arguments[i] {
            Argument::Memory(buffer) => {
                assert_eq!(self.memory[buffer.id].len() as u64 * 4, buffer.byte_len);
                buffer
            }
            _ => panic!("argument {} of {} is no buffer", i, launch.kernel.name()),
        }
    }

    fn words(&self, launch: &Launch, i: usize) -> Vec<u32> {
        self.memory[self.buffer(launch, i).id].clone()
    }

    fn floats(&self, launch: &Launch, i: usize) -> Vec<f32> {
        self.words(launch, i).into_iter().map(f32::from_bits).collect()
    }

    fn word(&self, launch: &Launch, i: usize) -> usize {
        match launch.arguments[i] {
            Argument::Word(word) => word as usize,
            _ => panic!("argument {} of {} is no word", i, launch.kernel.name()),
        }
    }

    fn number(&self, launch: &Launch, i: usize) -> f32 {
        match launch.arguments[i] {
            Argument::Real(value) => to_float(value),
            _ => panic!("argument {} of {} is no number", i, launch.kernel.name()),
        }
    }

    fn store_words(&mut self, launch: &Launch, i: usize, words: &[u32]) {
        let id = self.buffer(launch, i).id;
        self.memory[id][..words.len()].copy_from_slice(words);
    }

    fn store(&mut self, launch: &Launch, i: usize, values: &[f32]) {
        let words: Vec<u32> = values.iter().map(|v| v.to_bits()).collect();
        self.store_words(launch, i, &words);
    }
}

impl Device for Host {
    fn begin(&mut self) -> usize {
        self.memory.clear();
        self.session = self.kept.len();
        self.session
    }

    fn resume(&mut self, session: usize) {
        self.memory = self.kept[session].clone();
        self.session = session;
    }

    fn keep(&mut self, session: usize) {
        assert_eq!(session, self.session);
        if session == self.kept.len() {
            self.kept.push(Vec::new());
        }
        self.kept[session] = self.memory.clone();
    }

    fn compile(&mut self, _kernel: Kernel) -> CompileOutcome {
        CompileOutcome::Compiled(0)
    }

    fn detail(&self) -> String {
        self.detail.clone()
    }

    fn upload(&mut self, buffer: Buffer, words: &[u32]) {
        self.allocate(buffer);
        self.memory[buffer.id][..words.len()].copy_from_slice(words);
    }

    fn allocate(&mut self, buffer: Buffer) {
        while self.memory.len() <= buffer.id {
            self.memory.push(Vec::new());
        }
        self.memory[buffer.id] = vec![0xffff_ffff; buffer.byte_len as usize / 4];
    }

    fn run(&mut self, _pipeline: usize, launch: &Launch) {
        assert!(launch.groups.width > 0 || launch.groups.height > 0);
        assert!(launch.threadgroup_bytes <= 32768);
        self.execute(launch);
    }

    fn download(&self, buffer: Buffer, words: usize) -> Vec<u32> {
        self.memory[buffer.id][..words].to_vec()
    }
}

fn kernel_value(kernel: usize, gamma: f32, degree: f32, coef0: f32, x: &[f32], y: &[f32]) -> f32 {
    let dot: f32 = x.iter().zip(y).map(|(a, b)| a * b).sum();
    let gap: f32 = x.iter().zip(y).map(|(a, b)| (a - b) * (a - b)).sum();
    match kernel {
        0 => dot,
        1 => (gamma * dot + coef0).powf(degree),
        2 => (-gamma * gap).exp(),
        3 => (gamma * dot + coef0).tanh(),
        _ => panic!("no kernel {}", kernel),
    }
}

impl Host {
    fn execute(&mut self, launch: &Launch) {
        match launch.kernel {
            Kernel::SvmKernel => {
                let data = self.floats(launch, 0);
                let (n, d) = (self.word(launch, 2), self.word(launch, 3));
                let kernel = self.word(launch, 4);
                let gamma = self.number(launch, 5);
                let (degree, coef0) = (self.number(launch, 6), self.number(launch, 7));
                let mut out = Vec::new();
                for i in 0..n {
                    for j in 0..n {
                        let (x, y) = (&data[i * d..i * d + d], &data[j * d..j * d + d]);
                        out.push(kernel_value(kernel, gamma, degree, coef0, x, y));
                    }
                }
                self.store(launch, 1, &out);
            }
            Kernel::SvmPredict => {
                let x = self.floats(launch, 0);
                let support = self.floats(launch, 1);
                let dual = self.floats(launch, 2);
                let bias = self.floats(launch, 3);
                let offsets = self.words(launch, 4);
                let (m, k) = (self.word(launch, 6), self.word(launch, 7));
                let (ns, d) = (self.word(launch, 8), self.word(launch, 9));
                let kernel = self.word(launch, 10);
                let gamma = self.number(launch, 11);
                let (degree, coef0) = (self.number(launch, 12), self.number(launch, 13));
                assert_eq!(offsets[k] as usize, ns);
                let mut out = Vec::new();
                for i in 0..m {
                    for c in 0..k {
                        let mut value = bias[c];
                        for s in offsets[c] as usize..offsets[c + 1] as usize {
                            let (a, b) = (&x[i * d..i * d + d], &support[s * d..s * d + d]);
                            value += dual[s] * kernel_value(kernel, gamma, degree, coef0, a, b);
                        }
                        out.push(value);
                    }
                }
                self.store(launch, 5, &out);
            }
            _ => panic!("{} is no kernel of this model", launch.kernel.name()),
        }
    }
}

#[derive(Clone)]
struct SVRConfig {
    pub kernel: SVCKernel,
    pub gamma: f32,
    pub degree: f32,
    pub coef0: f32,
    pub c: f32,
    pub eps: f32,
    pub tolerance: f32,
    pub max_iter: usize,
    pub seed: u64,
}

impl Default for SVRConfig {
    fn default() -> Self {
        let config = lib::SVRConfig::default();
        SVRConfig {
            kernel: config.kernel,
            gamma: to_float(config.gamma),
            degree: to_float(config.degree),
            coef0: to_float(config.coef0),
            c: to_float(config.c),
            eps: to_float(config.eps),
            tolerance: to_float(config.tolerance),
            max_iter: config.max_iter,
            seed: config.seed,
        }
    }
}

/// Support vector regression.
struct SVR {
    model: lib::SVR,
}

fn refused(e: lib::SVRError) -> Error {
    Error::msg(match e {
        lib::SVRError::Empty => "Data must be non-empty".to_string(),
        lib::SVRError::DataLength { n, d, got } => {
            format!("Data length mismatch: expected {}, got {}", n * d, got)
        }
        lib::SVRError::TargetLength => "Target length mismatch".to_string(),
        lib::SVRError::C => "C must be a finite, positive value".to_string(),
        lib::SVRError::Eps => "eps must be a finite, non-negative value".to_string(),
        lib::SVRError::Tolerance => "tolerance must be a finite, positive value".to_string(),
        lib::SVRError::MaxIter => "max_iter must be > 0".to_string(),
        lib::SVRError::NotFitted => "Model is not fitted; call fit() first".to_string(),
        lib::SVRError::Dimension => "Feature dimension mismatch".to_string(),
        lib::SVRError::PredictionLength => "Data length mismatch".to_string(),
    })
}

/// A pair of rows: the coefficient and the product with the kernel of each, their targets and
/// how the objective bends along the pair.
struct Pair {
    own: f32,
    sum: f32,
    gi: f32,
    gj: f32,
    yi: f32,
    yj: f32,
    eta: f32,
}

impl Pair {
    fn benefit(&self, a: f32, eps: f32) -> f32 {
        let delta = a - self.own;
        -0.5 * self.eta * delta * delta - (self.gi - self.gj) * delta
            + (self.yi - self.yj) * delta
            - eps * (a.abs() + (self.sum - a).abs())
    }
}

fn optimize(smo: &mut lib::Smo, gram: &[f32], y: &[f32], n: usize, eps: f32) -> Vec<f32> {
    let c = to_float(smo.c);
    let tiny = 1e-5f32;
    let mut g = vec![0.0f32; n];
    while smo.next() {
        let i = smo.cursor.row;
        let j = match &smo.stage {
            lib::Stage::Draw => {
                smo.draw();
                continue;
            }
            lib::Stage::Bounds { j }
            | lib::Stage::Width { j, .. }
            | lib::Stage::Candidates { j, .. }
            | lib::Stage::Benefits { j, .. }
            | lib::Stage::Outcome { j, .. } => *j,
        };
        let pair = Pair {
            own: to_float(smo.beta[i]),
            sum: to_float(smo.beta[i]) + to_float(smo.beta[j]),
            gi: g[i],
            gj: g[j],
            yi: y[i],
            yj: y[j],
            eta: gram[i * n + i] + gram[j * n + j] - 2.0 * gram[i * n + j],
        };
        match &smo.stage {
            lib::Stage::Draw => {}
            lib::Stage::Bounds { .. } => smo.bound(bit(pair.sum - c), bit(pair.sum + c)),
            lib::Stage::Width { low, high, .. } => {
                let width = to_float(*high) - to_float(*low);
                smo.measure(bit(width), bit(pair.eta));
            }
            lib::Stage::Candidates { low, high, .. } => {
                let (low, high) = (to_float(*low), to_float(*high));
                let pull = (pair.yi - pair.gi) - (pair.yj - pair.gj);
                let optimum =
                    |slope: f32| (pair.own + (pull + slope) / pair.eta).max(low).min(high);
                let raw = bits(&[
                    low,
                    high,
                    0.0,
                    pair.sum,
                    optimum(0.0),
                    optimum(2.0 * eps),
                    optimum(-2.0 * eps),
                ]);
                smo.propose(&raw, bit(low - tiny), bit(high + tiny));
            }
            lib::Stage::Benefits { .. } => {
                let benefits: Vec<f32> = to_floats(smo.candidates())
                    .iter()
                    .map(|a| pair.benefit(*a, eps))
                    .collect();
                smo.choose_best(&bits(&benefits));
            }
            lib::Stage::Outcome { next, .. } => {
                let next = to_float(*next);
                let delta = next - pair.own;
                if smo.settle(bit(delta), bit(pair.sum - next)) {
                    for k in 0..n {
                        g[k] += delta * (gram[k * n + i] - gram[k * n + j]);
                    }
                }
            }
        }
    }
    g
}

fn intercept_from(g: &[f32], y: &[f32], beta: &[Float32], c: f32) -> f32 {
    let rows = lib::intercept_rows(beta, bit(c - 1e-5));
    if rows.is_empty() {
        return 0.0;
    }
    rows.iter().map(|i| y[*i] - g[*i]).sum::<f32>() / rows.len() as f32
}

impl SVR {
    fn new(config: SVRConfig) -> Self {
        SVR {
            model: lib::SVR::new(lib::SVRConfig {
                kernel: config.kernel,
                gamma: bit(config.gamma),
                degree: bit(config.degree),
                coef0: bit(config.coef0),
                c: bit(config.c),
                eps: bit(config.eps),
                tolerance: bit(config.tolerance),
                max_iter: config.max_iter,
                seed: config.seed,
            }),
        }
    }

    fn n_features(&self) -> usize {
        self.model.n_features()
    }

    fn n_samples(&self) -> usize {
        self.model.n_samples()
    }

    fn gamma(&self) -> f32 {
        to_float(self.model.gamma())
    }

    fn intercept(&self) -> f32 {
        to_float(self.model.intercept())
    }

    fn support_count(&self) -> usize {
        self.model.support_count()
    }

    fn support_vectors(&self) -> Vec<f32> {
        to_floats(self.model.support_vectors())
    }

    fn dual_coef(&self) -> Vec<f32> {
        to_floats(self.model.dual_coef())
    }

    fn n_iter(&self) -> usize {
        self.model.n_iter()
    }

    fn fit<D: Device>(
        &mut self,
        device: &mut D,
        data: &[f32],
        y: &[f32],
        n: usize,
        d: usize,
    ) -> Result<()> {
        let mut work = Work::new(device)?;
        let rows = bits(data);
        let gamma = match self.model.fit(&rows, &bits(y), n, d).map_err(refused)? {
            Some(gamma) => gamma,
            None => bit(1.0 / (d as f32)),
        };
        check_size(n, n);
        let pass = self.model.gram(&mut work.ctx, gamma, n, d);
        work.put(pass.data, data);
        work.make(pass.out);
        work.run(&mut self.model.pipelines, &pass.launch)?;
        let gram = work.take(pass.out, n * n);

        let mut smo = lib::Smo::new(&self.model.config, n);
        let eps = to_float(self.model.config.eps);
        let g = optimize(&mut smo, &gram, y, n, eps);
        let intercept = intercept_from(&g, y, &smo.beta, to_float(smo.c));
        let passes = smo.cursor.passes.done;
        self.model
            .finish(&rows, n, d, gamma, smo.beta, bit(intercept), passes);
        Ok(())
    }

    fn decision_function<D: Device>(
        &mut self,
        device: &mut D,
        data: &[f32],
        n: usize,
        d: usize,
    ) -> Result<Vec<f32>> {
        let mut work = Work::new(device)?;
        let pass = self
            .model
            .decision_function(&mut work.ctx, &bits(data), n, d)
            .map_err(refused)?;
        work.put(pass.x, data);
        work.put(pass.support, &self.support_vectors());
        work.put(pass.dual, &self.dual_coef());
        work.put(pass.bias, &[self.intercept()]);
        work.put_words(pass.offsets, &self.model.offsets);
        work.make(pass.out);
        work.run(&mut self.model.pipelines, &pass.launch)?;
        Ok(work.take(pass.out, n))
    }

    fn predict<D: Device>(
        &mut self,
        device: &mut D,
        data: &[f32],
        n: usize,
        d: usize,
    ) -> Result<Vec<f32>> {
        self.decision_function(device, data, n, d)
    }

    fn score<D: Device>(
        &mut self,
        device: &mut D,
        data: &[f32],
        y: &[f32],
        n: usize,
        d: usize,
    ) -> Result<f32> {
        lib::SVR::check_score(y.len(), n).map_err(refused)?;
        let predictions = self.predict(device, data, n, d)?;
        let mean = y.iter().sum::<f32>() / n as f32;
        let mut ss_res = 0.0f32;
        let mut ss_tot = 0.0f32;
        for i in 0..n {
            let r = y[i] - predictions[i];
            ss_res += r * r;
            let t = y[i] - mean;
            ss_tot += t * t;
        }
        let value = 1.0 - ss_res / ss_tot;
        Ok(to_float(lib::SVR::score(bit(ss_res), bit(ss_tot), bit(value))))
    }
}


fn rng_data_y(seed: u64, n: usize, d: usize) -> (Vec<f32>, Vec<f32>) {
    let mut rng = fastrand::Rng::with_seed(seed);
    let mut data = vec![0.0f32; n * d];
    let mut y = vec![0.0f32; n];
    for i in 0..n {
        let mut v = 0.5f32;
        for dim in 0..d {
            let xv = rng.f32() * 2.0 - 1.0;
            data[i * d + dim] = xv;
            v += (dim as f32 + 1.0) * xv;
        }
        y[i] = v;
    }
    (data, y)
}

#[test]
fn svr_linear_fit() {
    let mut ctx = Host::new();
    let n = 120;
    let d = 3;
    let (data, y) = rng_data_y(7, n, d);
    let mut m = SVR::new(SVRConfig {
        kernel: SVCKernel::Linear,
        gamma: 1.0,
        c: 100.0,
        eps: 0.05,
        max_iter: 300,
        ..Default::default()
    });
    m.fit(&mut ctx, &data, &y, n, d).unwrap();
    let r2 = m.score(&mut ctx, &data, &y, n, d).unwrap();
    assert!(
        r2 > 0.95,
        "linear SVR should capture the linear target, got R²={}",
        r2
    );
    assert!(m.support_count() > 0 && m.support_count() <= n);
}

#[test]
fn svr_rbf_nonlinear() {
    let mut ctx = Host::new();
    // 1-D noisy sine: not linearly separable — RBF must fit it.
    let n = 150;
    let d = 1;
    let mut rng = fastrand::Rng::with_seed(11);
    let mut data = vec![0.0f32; n * d];
    let mut y = vec![0.0f32; n];
    for i in 0..n {
        let x = rng.f32() * 6.28f32;
        data[i] = x;
        y[i] = x.sin();
    }
    let mut m = SVR::new(SVRConfig {
        kernel: SVCKernel::Rbf,
        gamma: 0.6,
        c: 5.0,
        eps: 0.05,
        max_iter: 300,
        ..Default::default()
    });
    m.fit(&mut ctx, &data, &y, n, d).unwrap();
    let r2 = m.score(&mut ctx, &data, &y, n, d).unwrap();
    assert!(
        r2 > 0.9,
        "RBF SVR should fit a smooth sinusoid, got R²={}",
        r2
    );
    // Predictions are bounded within the target range (no huge overshoot).
    let preds = m.predict(&mut ctx, &data, n, d).unwrap();
    for &p in &preds {
        assert!(
            p.is_finite() && (-2.0..=2.0).contains(&p),
            "prediction {} out of expected range",
            p
        );
    }
}

#[test]
fn svr_invalid_inputs() {
    let mut ctx = Host::new();
    let (data, y) = rng_data_y(1, 10, 2);
    let mut m = SVR::new(SVRConfig::default());
    assert!(m.fit(&mut ctx, &data, &y[..5], 10, 2).is_err());
    assert!(m.fit(&mut ctx, &data, &y, 12, 2).is_err());
    assert!(m.fit(&mut ctx, &data, &y, 10, 2).is_ok());
    // Unused was the *regression* target: y length mismatch handled above.
}

#[test]
fn svr_deterministic_seed() {
    let mut ctx = Host::new();
    let (data, y) = rng_data_y(5, 60, 2);
    let mut fit = |seed: u64, iters: usize| -> Vec<f32> {
        let mut m = SVR::new(SVRConfig {
            kernel: SVCKernel::Rbf,
            gamma: 1.0,
            c: 2.0,
            eps: 0.1,
            seed,
            max_iter: iters,
            ..Default::default()
        });
        m.fit(&mut ctx, &data, &y, 60, 2).unwrap();
        m.predict(&mut ctx, &data, 60, 2).unwrap()
    };
    let a = fit(1234, 100);
    let b = fit(1234, 100);
    assert_eq!(a, b, "same seed must reproduce identical predictions");
}

#[test]
fn svr_fits_sinusoid() {
    let mut ctx = Host::new();
    let n = 150;
    let d = 1;
    let mut rng = fastrand::Rng::with_seed(11);
    let mut data = vec![0.0f32; n * d];
    let mut y = vec![0.0f32; n];
    for i in 0..n {
        let x = rng.f32() * 6.28f32;
        data[i] = x;
        y[i] = x.sin();
    }

    let mut m = SVR::new(SVRConfig {
        kernel: SVCKernel::Rbf,
        gamma: 0.6,
        c: 5.0,
        eps: 0.05,
        max_iter: 300,
        ..Default::default()
    });
    m.fit(&mut ctx, &data, &y, n, d).unwrap();

    let r2 = m.score(&mut ctx, &data, &y, n, d).unwrap();
    assert!(
        r2 > 0.9,
        "RBF SVR should fit a smooth sinusoid, got R²={}",
        r2
    );
    assert!(m.support_count() > 0 && m.support_count() <= n);

    // decision_function and predict are the same for SVR (single regressor).
    let preds = m.predict(&mut ctx, &data, n, d).unwrap();
    let dec = m.decision_function(&mut ctx, &data, n, d).unwrap();
    assert_eq!(preds, dec);
    assert_eq!(preds.len(), n);
}
