//! Support vector classification, with the kernels run on the host.
#![allow(dead_code)]

use anyhow::{Error, Result};
use metal_operators::float::Float32;
use metal_operators::metal::{Argument, Buffer, CompileOutcome, Kernel, Launch, MetalContext, MetalError};
use metal_operators::pipeline::{PipelineCache, PipelineError};
use metal_operators::svm as lib;
use metal_operators::svm::SVCKernel;

/// What carries out the work: a device that holds buffers and runs kernels.
trait Device {
    /// Opens a place for the buffers of a piece of work. Those of the work before are
    /// forgotten, unless they are kept.
    fn begin(&mut self) -> usize;
    /// Goes on with the buffers of an earlier piece of work.
    fn resume(&mut self, session: usize);
    /// Keeps the buffers of a piece of work for later.
    fn keep(&mut self, session: usize);
    /// Asks for the pipeline of a kernel.
    fn compile(&mut self, kernel: Kernel) -> CompileOutcome;
    /// What the device said of the last request that failed.
    fn detail(&self) -> String;
    /// Makes a buffer that holds `words`, or fills one that is there.
    fn upload(&mut self, buffer: Buffer, words: &[u32]);
    /// Makes a buffer whose contents nothing has set.
    fn allocate(&mut self, buffer: Buffer);
    /// Runs a kernel and waits for it.
    fn run(&mut self, pipeline: usize, launch: &Launch);
    /// Reads from the start of a buffer.
    fn download(&self, buffer: Buffer, words: usize) -> Vec<u32>;
}

/// The bits of numbers, of which there are no more than buffers can be measured for.
fn bits(values: &[f32]) -> Vec<Float32> {
    check_size(values.len(), 64);
    values.iter().map(|v| bit(*v)).collect()
}

/// The bits of a number.
fn bit(value: f32) -> Float32 {
    Float32 { bits: value.to_bits() }
}

/// The numbers that bits stand for.
fn to_floats(values: &[Float32]) -> Vec<f32> {
    values.iter().map(|v| to_float(*v)).collect()
}

/// The number that bits stand for.
fn to_float(value: Float32) -> f32 {
    f32::from_bits(value.bits)
}

/// An error with this message.
fn error<T>(message: String) -> Result<T> {
    Err(Error::msg(message))
}

fn compilation(kind: MetalError, detail: String) -> Error {
    Error::msg(match kind {
        MetalError::NoDevice => "No Metal device found".to_string(),
        MetalError::ShaderCompilation => format!("Shader compilation failed: {}", detail),
        MetalError::FunctionNotFound(kernel) => {
            format!("Function '{}' not found: {}", kernel.name(), detail)
        }
        MetalError::PipelineCreation => format!("Pipeline creation failed: {}", detail),
    })
}

/// A piece of work that can be gone on with.
struct Suspended {
    ctx: MetalContext,
    session: usize,
}

/// One piece of work: the ledger of its buffers and the device that holds them.
struct Work<'a, D: Device> {
    pub ctx: MetalContext,
    session: usize,
    device: &'a mut D,
}

impl<'a, D: Device> Work<'a, D> {
    fn new(device: &'a mut D) -> Result<Self> {
        let session = device.begin();
        match MetalContext::new(true) {
            Ok(ctx) => Ok(Work { ctx, session, device }),
            Err(e) => Err(compilation(e, String::new())),
        }
    }

    fn resume(device: &'a mut D, suspended: Suspended) -> Self {
        device.resume(suspended.session);
        Work { ctx: suspended.ctx, session: suspended.session, device }
    }

    fn suspend(self) -> Suspended {
        self.device.keep(self.session);
        Suspended { ctx: self.ctx, session: self.session }
    }

    /// Fills a buffer with numbers.
    fn put(&mut self, buffer: Buffer, values: &[f32]) {
        let words: Vec<u32> = values.iter().map(|v| v.to_bits()).collect();
        self.put_words(buffer, &words);
    }

    /// Fills a buffer with words.
    fn put_words(&mut self, buffer: Buffer, words: &[u32]) {
        assert!(self.ctx.write_buffer(&buffer, words.len()));
        self.device.upload(buffer, words);
    }

    /// Makes a buffer whose contents nothing has set.
    fn make(&mut self, buffer: Buffer) {
        self.device.allocate(buffer);
    }

    /// Reads numbers from a buffer.
    fn take(&self, buffer: Buffer, count: usize) -> Vec<f32> {
        self.take_words(buffer, count)
            .into_iter()
            .map(f32::from_bits)
            .collect()
    }

    /// Reads words from a buffer.
    fn take_words(&self, buffer: Buffer, count: usize) -> Vec<u32> {
        assert!(self.ctx.read_buffer(&buffer, count));
        self.device.download(buffer, count)
    }

    /// Runs a kernel whose pipeline the model keeps.
    fn run(&mut self, cache: &mut PipelineCache, launch: &Launch) -> Result<()> {
        let pipeline = match cache.cached(launch.kernel) {
            Some(pipeline) => pipeline,
            None => {
                let outcome = self.device.compile(launch.kernel);
                match cache.get(&self.ctx, launch.kernel, outcome) {
                    Ok(pipeline) => pipeline,
                    Err(PipelineError::Unknown(kernel)) => {
                        return error(format!("Unknown pipeline: {}", kernel.name()));
                    }
                    Err(PipelineError::Compilation(e)) => {
                        return Err(compilation(e, self.device.detail()));
                    }
                }
            }
        };
        self.device.run(pipeline, launch);
        Ok(())
    }

    /// Makes the pipeline of a kernel.
    fn compile(&mut self, kernel: Kernel) -> Result<usize> {
        let outcome = self.device.compile(kernel);
        self.ctx
            .compile_kernel(kernel, outcome)
            .map_err(|e| compilation(e, self.device.detail()))
    }

    /// Runs a kernel whose pipeline was made before.
    fn run_compiled(&mut self, pipeline: usize, launch: &Launch) {
        self.device.run(pipeline, launch);
    }

    /// Runs a kernel whose pipeline is made for this time.
    fn run_once(&mut self, launch: &Launch) -> Result<()> {
        let pipeline = self.compile(launch.kernel)?;
        self.run_compiled(pipeline, launch);
        Ok(())
    }
}

/// Fails where a buffer of `rows` times `columns` elements could not be measured in bytes.
fn check_size(rows: usize, columns: usize) {
    let bytes = rows.checked_mul(columns).and_then(|elements| elements.checked_mul(4));
    assert!(
        bytes.and_then(|bytes| bytes.checked_add(1024)).is_some(),
        "attempt to multiply with overflow"
    );
}

/// A device of the host: each kernel is a plain loop.
struct Host {
    memory: Vec<Vec<u32>>,
    kept: Vec<Vec<Vec<u32>>>,
    session: usize,
    detail: String,
}

impl Host {
    fn new() -> Host {
        Host { memory: Vec::new(), kept: Vec::new(), session: 0, detail: String::new() }
    }

    fn buffer(&self, launch: &Launch, i: usize) -> Buffer {
        match launch.arguments[i] {
            Argument::Memory(buffer) => {
                assert_eq!(self.memory[buffer.id].len() as u64 * 4, buffer.byte_len);
                buffer
            }
            _ => panic!("argument {} of {} is no buffer", i, launch.kernel.name()),
        }
    }

    fn words(&self, launch: &Launch, i: usize) -> Vec<u32> {
        self.memory[self.buffer(launch, i).id].clone()
    }

    fn floats(&self, launch: &Launch, i: usize) -> Vec<f32> {
        self.words(launch, i).into_iter().map(f32::from_bits).collect()
    }

    fn word(&self, launch: &Launch, i: usize) -> usize {
        match launch.arguments[i] {
            Argument::Word(word) => word as usize,
            _ => panic!("argument {} of {} is no word", i, launch.kernel.name()),
        }
    }

    fn number(&self, launch: &Launch, i: usize) -> f32 {
        match launch.arguments[i] {
            Argument::Real(value) => to_float(value),
            _ => panic!("argument {} of {} is no number", i, launch.kernel.name()),
        }
    }

    fn store_words(&mut self, launch: &Launch, i: usize, words: &[u32]) {
        let id = self.buffer(launch, i).id;
        self.memory[id][..words.len()].copy_from_slice(words);
    }

    fn store(&mut self, launch: &Launch, i: usize, values: &[f32]) {
        let words: Vec<u32> = values.iter().map(|v| v.to_bits()).collect();
        self.store_words(launch, i, &words);
    }
}

impl Device for Host {
    fn begin(&mut self) -> usize {
        self.memory.clear();
        self.session = self.kept.len();
        self.session
    }

    fn resume(&mut self, session: usize) {
        self.memory = self.kept[session].clone();
        self.session = session;
    }

    fn keep(&mut self, session: usize) {
        assert_eq!(session, self.session);
        if session == self.kept.len() {
            self.kept.push(Vec::new());
        }
        self.kept[session] = self.memory.clone();
    }

    fn compile(&mut self, _kernel: Kernel) -> CompileOutcome {
        CompileOutcome::Compiled(0)
    }

    fn detail(&self) -> String {
        self.detail.clone()
    }

    fn upload(&mut self, buffer: Buffer, words: &[u32]) {
        self.allocate(buffer);
        self.memory[buffer.id][..words.len()].copy_from_slice(words);
    }

    fn allocate(&mut self, buffer: Buffer) {
        while self.memory.len() <= buffer.id {
            self.memory.push(Vec::new());
        }
        self.memory[buffer.id] = vec![0xffff_ffff; buffer.byte_len as usize / 4];
    }

    fn run(&mut self, _pipeline: usize, launch: &Launch) {
        assert!(launch.groups.width > 0 || launch.groups.height > 0);
        assert!(launch.threadgroup_bytes <= 32768);
        self.execute(launch);
    }

    fn download(&self, buffer: Buffer, words: usize) -> Vec<u32> {
        self.memory[buffer.id][..words].to_vec()
    }
}

fn kernel_value(kernel: usize, gamma: f32, degree: f32, coef0: f32, x: &[f32], y: &[f32]) -> f32 {
    let dot: f32 = x.iter().zip(y).map(|(a, b)| a * b).sum();
    let gap: f32 = x.iter().zip(y).map(|(a, b)| (a - b) * (a - b)).sum();
    match kernel {
        0 => dot,
        1 => (gamma * dot + coef0).powf(degree),
        2 => (-gamma * gap).exp(),
        3 => (gamma * dot + coef0).tanh(),
        _ => panic!("no kernel {}", kernel),
    }
}

impl Host {
    fn execute(&mut self, launch: &Launch) {
        match launch.kernel {
            Kernel::SvmKernel => {
                let data = self.floats(launch, 0);
                let (n, d) = (self.word(launch, 2), self.word(launch, 3));
                let kernel = self.word(launch, 4);
                let gamma = self.number(launch, 5);
                let (degree, coef0) = (self.number(launch, 6), self.number(launch, 7));
                let mut out = Vec::new();
                for i in 0..n {
                    for j in 0..n {
                        let (x, y) = (&data[i * d..i * d + d], &data[j * d..j * d + d]);
                        out.push(kernel_value(kernel, gamma, degree, coef0, x, y));
                    }
                }
                self.store(launch, 1, &out);
            }
            Kernel::SvmPredict => {
                let x = self.floats(launch, 0);
                let support = self.floats(launch, 1);
                let dual = self.floats(launch, 2);
                let bias = self.floats(launch, 3);
                let offsets = self.words(launch, 4);
                let (m, k) = (self.word(launch, 6), self.word(launch, 7));
                let (ns, d) = (self.word(launch, 8), self.word(launch, 9));
                let kernel = self.word(launch, 10);
                let gamma = self.number(launch, 11);
                let (degree, coef0) = (self.number(launch, 12), self.number(launch, 13));
                assert_eq!(offsets[k] as usize, ns);
                let mut out = Vec::new();
                for i in 0..m {
                    for c in 0..k {
                        let mut value = bias[c];
                        for s in offsets[c] as usize..offsets[c + 1] as usize {
                            let (a, b) = (&x[i * d..i * d + d], &support[s * d..s * d + d]);
                            value += dual[s] * kernel_value(kernel, gamma, degree, coef0, a, b);
                        }
                        out.push(value);
                    }
                }
                self.store(launch, 5, &out);
            }
            _ => panic!("{} is no kernel of this model", launch.kernel.name()),
        }
    }
}

#[derive(Clone)]
struct SVCConfig {
    pub kernel: SVCKernel,
    pub gamma: f32,
    pub degree: f32,
    pub coef0: f32,
    pub c: f32,
    pub tolerance: f32,
    pub max_iter: usize,
    pub seed: u64,
}

impl Default for SVCConfig {
    fn default() -> Self {
        let config = lib::SVCConfig::default();
        SVCConfig {
            kernel: config.kernel,
            gamma: to_float(config.gamma),
            degree: to_float(config.degree),
            coef0: to_float(config.coef0),
            c: to_float(config.c),
            tolerance: to_float(config.tolerance),
            max_iter: config.max_iter,
            seed: config.seed,
        }
    }
}

/// Support vector classification.
struct SVC {
    model: lib::SVC,
}

fn refused(e: lib::SVCError) -> Error {
    Error::msg(match e {
        lib::SVCError::Empty => "Data must be non-empty".to_string(),
        lib::SVCError::DataLength { n, d, got } => {
            format!("Data length mismatch: expected {}, got {}", n * d, got)
        }
        lib::SVCError::LabelLength => "Label length mismatch".to_string(),
        lib::SVCError::C => "C must be a finite, positive value".to_string(),
        lib::SVCError::Tolerance => "tolerance must be a finite, positive value".to_string(),
        lib::SVCError::MaxIter => "max_iter must be > 0".to_string(),
        lib::SVCError::Classes => "SVC requires at least two classes".to_string(),
        lib::SVCError::NotFitted => "Model is not fitted; call fit() first".to_string(),
        lib::SVCError::Dimension => "Feature dimension mismatch".to_string(),
        lib::SVCError::PredictionLength => "Data length mismatch".to_string(),
    })
}

fn gaps(values: &[f32], other: f32) -> Vec<Float32> {
    values.iter().map(|v| bit(*v - other)).collect()
}

fn error_at(gram: &[f32], smo: &lib::Smo, y: &[f32], i: usize, n: usize) -> f32 {
    let mut sum = 0.0f32;
    for j in 0..n {
        let alpha = to_float(smo.alpha[j]);
        if alpha != 0.0 {
            sum += alpha * y[j] * gram[i * n + j];
        }
    }
    sum + to_float(smo.intercept) - y[i]
}

fn optimize(smo: &mut lib::Smo, gram: &[f32], y: &[f32], n: usize) {
    let c = to_float(smo.c);
    while smo.next() {
        let i = smo.cursor.row;
        let ei = error_at(gram, smo, y, i, n);
        let ai = to_float(smo.alpha[i]);
        match smo.stage {
            lib::Stage::Examine => smo.examine(bit(y[i] * ei)),
            lib::Stage::Bounds { j, opposed } => {
                let aj = to_float(smo.alpha[j]);
                if opposed {
                    smo.bound(bit(aj - ai), bit(c + aj - ai));
                } else {
                    smo.bound(bit(ai + aj - c), bit(ai + aj));
                }
            }
            lib::Stage::Optimum { j, low, high } => {
                let ej = error_at(gram, smo, y, j, n);
                let eta = 2.0 * gram[j * n + i] - gram[i * n + i] - gram[j * n + j];
                let optimum = to_float(smo.alpha[j]) - y[j] * (ei - ej) / eta;
                smo.optimize(bit(to_float(low) - to_float(high)), bit(eta), bit(optimum));
            }
            lib::Stage::Outcome { j, next } => {
                let ej = error_at(gram, smo, y, j, n);
                let b = to_float(smo.intercept);
                let change = to_float(next) - to_float(smo.alpha[j]);
                let own = ai + y[i] * y[j] * (to_float(smo.alpha[j]) - to_float(next));
                let first = b
                    - ei
                    - y[i] * (own - ai) * gram[i * n + i]
                    - y[j] * change * gram[i * n + j];
                let second = b
                    - ej
                    - y[i] * (own - ai) * gram[i * n + j]
                    - y[j] * change * gram[j * n + j];
                let middle = 0.5 * (first + second);
                smo.settle(bit(change), bit(own), bit(first), bit(second), bit(middle));
            }
        }
    }
}

impl SVC {
    fn new(config: SVCConfig) -> Self {
        SVC {
            model: lib::SVC::new(lib::SVCConfig {
                kernel: config.kernel,
                gamma: bit(config.gamma),
                degree: bit(config.degree),
                coef0: bit(config.coef0),
                c: bit(config.c),
                tolerance: bit(config.tolerance),
                max_iter: config.max_iter,
                seed: config.seed,
            }),
        }
    }

    fn n_classes(&self) -> usize {
        self.model.n_classes()
    }

    fn n_features(&self) -> usize {
        self.model.n_features()
    }

    fn n_samples(&self) -> usize {
        self.model.n_samples()
    }

    fn gamma(&self) -> f32 {
        to_float(self.model.gamma())
    }

    fn classes(&self) -> Vec<f32> {
        to_floats(self.model.classes())
    }

    fn intercept(&self) -> Vec<f32> {
        to_floats(self.model.intercept())
    }

    fn n_support(&self) -> Vec<usize> {
        self.model.n_support()
    }

    fn support_count(&self) -> usize {
        self.model.support_count()
    }

    fn support_vectors(&self) -> Vec<f32> {
        to_floats(self.model.support_vectors())
    }

    fn dual_coef(&self) -> Vec<f32> {
        to_floats(self.model.dual_coef())
    }

    fn n_iter(&self) -> Vec<usize> {
        self.model.n_iter().to_vec()
    }

    fn fit<D: Device>(
        &mut self,
        device: &mut D,
        data: &[f32],
        y: &[f32],
        n: usize,
        d: usize,
    ) -> Result<()> {
        let mut work = Work::new(device)?;
        let rows = bits(data);
        let gamma = match self.model.fit(&rows, &bits(y), n, d).map_err(refused)? {
            Some(gamma) => gamma,
            None => bit(1.0 / (d as f32)),
        };
        let mut table = lib::ClassTable::new();
        for label in y {
            let distances = gaps(&to_floats(&table.classes), *label);
            table.observe(bit(*label), &distances);
        }
        if table.classes.len() >= 2 {
            check_size(n, n);
        }
        let pass = self
            .model
            .gram(&mut work.ctx, &table, gamma, n, d)
            .map_err(refused)?;
        work.put(pass.data, data);
        work.make(pass.out);
        work.run(&mut self.model.pipelines, &pass.launch)?;
        let gram = work.take(pass.out, n * n);

        let mut pool = lib::Pool::new(&rows, n, d);
        let mut intercept = Vec::new();
        let mut passes = Vec::new();
        for ci in 0..table.classes.len() {
            let side = lib::members(&gaps(y, to_float(table.classes[ci])));
            let signs: Vec<f32> = side.iter().map(|s| if *s { 1.0 } else { -1.0 }).collect();
            assert!(
                (ci as u64)
                    .checked_mul(lib::SEED_STRIDE)
                    .and_then(|stride| stride.checked_add(self.model.config.seed))
                    .is_some(),
                "attempt to add with overflow"
            );
            let mut smo = lib::Smo::new(&self.model.config, side, ci);
            optimize(&mut smo, &gram, &signs, n);
            pool.add_class(&rows, n, &smo.alpha, &smo.sides);
            intercept.push(smo.intercept);
            passes.push(smo.cursor.passes.done);
        }
        self.model
            .finish(&rows, n, d, table, gamma, pool, intercept, passes);
        Ok(())
    }

    fn decision_function<D: Device>(
        &mut self,
        device: &mut D,
        data: &[f32],
        n: usize,
        d: usize,
    ) -> Result<Vec<f32>> {
        let mut work = Work::new(device)?;
        if n <= data.len() {
            check_size(n, self.model.k);
        }
        let pass = self
            .model
            .decision_function(&mut work.ctx, &bits(data), n, d)
            .map_err(refused)?;
        work.put(pass.x, data);
        work.put(pass.support, &self.support_vectors());
        work.put(pass.dual, &self.dual_coef());
        work.put(pass.bias, &self.intercept());
        work.put_words(pass.offsets, &self.model.offsets);
        work.make(pass.out);
        work.run(&mut self.model.pipelines, &pass.launch)?;
        Ok(work.take(pass.out, n * self.model.k))
    }

    fn predict<D: Device>(
        &mut self,
        device: &mut D,
        data: &[f32],
        n: usize,
        d: usize,
    ) -> Result<Vec<f32>> {
        let decisions = self.decision_function(device, data, n, d)?;
        Ok(to_floats(&self.model.predict(&bits(&decisions), n)))
    }

    fn score<D: Device>(
        &mut self,
        device: &mut D,
        data: &[f32],
        y: &[f32],
        n: usize,
        d: usize,
    ) -> Result<f32> {
        lib::SVC::check_score(y.len(), n).map_err(refused)?;
        let predictions = self.predict(device, data, n, d)?;
        let differences: Vec<Float32> = predictions
            .iter()
            .zip(y)
            .map(|(prediction, label)| bit(prediction - label))
            .collect();
        Ok(lib::SVC::score(&differences) as f32 / n as f32)
    }
}


/// `k * n_per` Gaussian blobs, blob `c` centered at 10 on axis `c`.
fn blobs(seed: u64, n_per: usize, k: usize, d: usize, spread: f32) -> (Vec<f32>, Vec<f32>) {
    let n = n_per * k;
    let mut rng = fastrand::Rng::with_seed(seed);
    let mut data = vec![0.0f32; n * d];
    let mut labels = Vec::with_capacity(n);
    let mut idx = 0usize;
    for c in 0..k {
        for _ in 0..n_per {
            for dim in 0..d {
                let center = if dim == c { 10.0 } else { 0.0 };
                data[idx * d + dim] = center + (rng.f32() - 0.5) * spread;
            }
            labels.push(c as f32);
            idx += 1;
        }
    }
    (data, labels)
}

fn svc() -> SVC {
    SVC::new(SVCConfig::default())
}

#[test]
fn svm_blobs_linear() {
    let mut ctx = Host::new();
    let (data, labels) = blobs(1, 40, 3, 4, 1.0);
    let mut m = SVC::new(SVCConfig {
        kernel: SVCKernel::Linear,
        c: 1.0,
        tolerance: 1e-4,
        max_iter: 200,
        seed: 7,
        ..Default::default()
    });
    m.fit(&mut ctx, &data, &labels, 120, 4).unwrap();
    let preds = m.predict(&mut ctx, &data, 120, 4).unwrap();
    let acc = m.score(&mut ctx, &data, &labels, 120, 4).unwrap();
    assert!(acc > 0.95, "accuracy {} too low", acc);
    assert_eq!(m.classes(), &[0.0, 1.0, 2.0]);
    assert_eq!(m.n_support().len(), 3);
    assert_eq!(m.support_vectors().len() % 4, 0);
    assert_eq!(m.intercept().len(), 3);
    // every pooled dual is alpha*y of a support (alpha > 1e-5 => |dual| > 0)
    assert!(m.dual_coef().iter().all(|&v| v.abs() > 0.0));
    // decision matrix shape (n, k)
    let dec = m.decision_function(&mut ctx, &data, 120, 4).unwrap();
    assert_eq!(dec.len(), 120 * 3);
    // prediction is argmax of the decision rows
    for i in 0..120 {
        let best = (0..3)
            .max_by(|&a, &b| dec[i * 3 + a].partial_cmp(&dec[i * 3 + b]).unwrap())
            .unwrap();
        assert!((preds[i] - [0.0, 1.0, 2.0][best]).abs() < 0.5);
    }
}

#[test]
fn svm_rbf_nonlinear() {
    // XOR-like 2-D pattern: separable in RBF space, not linearly.
    let mut ctx = Host::new();
    let data: Vec<f32> = vec![
        0.0, 0.0, 1.0, 1.0, // class 0
        0.0, 1.0, 1.0, 0.0, // class 1
    ];
    let labels = vec![0.0, 0.0, 1.0, 1.0];
    let mut m = SVC::new(SVCConfig {
        kernel: SVCKernel::Rbf,
        gamma: 0.5,
        c: 100.0,
        tolerance: 1e-6,
        max_iter: 400,
        seed: 3,
        ..Default::default()
    });
    m.fit(&mut ctx, &data, &labels, 4, 2).unwrap();
    let preds = m.predict(&mut ctx, &data, 4, 2).unwrap();
    assert_eq!(preds, labels);
}

#[test]
fn svm_invalid_inputs() {
    let mut ctx = Host::new();
    let mut m = svc();
    // not fitted => decision errors
    assert!(m.predict(&mut ctx, &[1.0, 2.0], 1, 2).is_err());
    // one class only
    let (data, _) = blobs(1, 10, 1, 3, 1.0);
    let labels = vec![0.0f32; 10];
    assert!(m.fit(&mut ctx, &data, &labels, 10, 3).is_err());
    // bad C
    let mut m2 = SVC::new(SVCConfig {
        c: 0.0,
        ..Default::default()
    });
    let (data, labels) = blobs(1, 10, 2, 3, 1.0);
    assert!(m2.fit(&mut ctx, &data, &labels, 20, 3).is_err());
}

#[test]
fn svm_deterministic_seed() {
    let mut ctx = Host::new();
    let (data, labels) = blobs(9, 30, 3, 2, 0.8);
    let mut a = SVC::new(SVCConfig {
        kernel: SVCKernel::Rbf,
        seed: 11,
        ..Default::default()
    });
    let mut b = SVC::new(SVCConfig {
        kernel: SVCKernel::Rbf,
        seed: 11,
        ..Default::default()
    });
    a.fit(&mut ctx, &data, &labels, 90, 2).unwrap();
    b.fit(&mut ctx, &data, &labels, 90, 2).unwrap();
    assert_eq!(a.intercept(), b.intercept());
    assert_eq!(
        a.predict(&mut ctx, &data, 90, 2).unwrap(),
        b.predict(&mut ctx, &data, 90, 2).unwrap()
    );
}

#[test]
fn xor_separable_with_rbf() {
    let mut ctx = Host::new();
    // XOR: (0,0),(0,1),(1,0),(1,1) with labels mirroring the bit parity.
    let data: Vec<f32> = vec![0.0, 0.0, 0.0, 1.0, 1.0, 0.0, 1.0, 1.0];
    let labels = vec![0.0, 1.0, 1.0, 0.0];
    let n = 4;
    let d = 2;

    let mut m = SVC::new(SVCConfig {
        kernel: SVCKernel::Rbf,
        gamma: 0.5,
        c: 100.0,
        tolerance: 1e-6,
        max_iter: 400,
        seed: 3,
        ..Default::default()
    });
    m.fit(&mut ctx, &data, &labels, n, d).unwrap();

    let preds = m.predict(&mut ctx, &data, n, d).unwrap();
    let correct = (0..n)
        .filter(|&i| preds[i] as usize == labels[i] as usize)
        .count();
    assert_eq!(
        correct, n,
        "XOR is not linearly separable; RBF must separate it"
    );
    assert_eq!(m.classes(), &[0.0, 1.0]);
    assert!(
        m.support_count() > 0,
        "RBF fit should yield support vectors"
    );

    // Decision function: consistent sign with the label convention.
    let dec = m.decision_function(&mut ctx, &data, n, d).unwrap();
    assert_eq!(dec.len(), n * m.n_classes());
}
