//! Gaussian naive Bayes, with the kernels run on the host.
#![allow(dead_code)]

use anyhow::{Error, Result};
use metal_operators::float::Float32;
use metal_operators::metal::{Argument, Buffer, CompileOutcome, Kernel, Launch, MetalContext, MetalError};
use metal_operators::pipeline::{PipelineCache, PipelineError};
use metal_operators::naive_bayes as lib;
use metal_operators::select::maximum;

/// What carries out the work: a device that holds buffers and runs kernels.
trait Device {
    /// Opens a place for the buffers of a piece of work. Those of the work before are
    /// forgotten, unless they are kept.
    fn begin(&mut self) -> usize;
    /// Goes on with the buffers of an earlier piece of work.
    fn resume(&mut self, session: usize);
    /// Keeps the buffers of a piece of work for later.
    fn keep(&mut self, session: usize);
    /// Asks for the pipeline of a kernel.
    fn compile(&mut self, kernel: Kernel) -> CompileOutcome;
    /// What the device said of the last request that failed.
    fn detail(&self) -> String;
    /// Makes a buffer that holds `words`, or fills one that is there.
    fn upload(&mut self, buffer: Buffer, words: &[u32]);
    /// Makes a buffer whose contents nothing has set.
    fn allocate(&mut self, buffer: Buffer);
    /// Runs a kernel and waits for it.
    fn run(&mut self, pipeline: usize, launch: &Launch);
    /// Reads from the start of a buffer.
    fn download(&self, buffer: Buffer, words: usize) -> Vec<u32>;
}

/// The bits of numbers, of which there are no more than buffers can be measured for.
fn bits(values: &[f32]) -> Vec<Float32> {
    check_size(values.len(), 64);
    values.iter().map(|v| bit(*v)).collect()
}

/// The bits of a number.
fn bit(value: f32) -> Float32 {
    Float32 { bits: value.to_bits() }
}

/// The numbers that bits stand for.
fn to_floats(values: &[Float32]) -> Vec<f32> {
    values.iter().map(|v| to_float(*v)).collect()
}

/// The number that bits stand for.
fn to_float(value: Float32) -> f32 {
    f32::from_bits(value.bits)
}

/// An error with this message.
fn error<T>(message: String) -> Result<T> {
    Err(Error::msg(message))
}

fn compilation(kind: MetalError, detail: String) -> Error {
    Error::msg(match kind {
        MetalError::NoDevice => "No Metal device found".to_string(),
        MetalError::ShaderCompilation => format!("Shader compilation failed: {}", detail),
        MetalError::FunctionNotFound(kernel) => {
            format!("Function '{}' not found: {}", kernel.name(), detail)
        }
        MetalError::PipelineCreation => format!("Pipeline creation failed: {}", detail),
    })
}

/// A piece of work that can be gone on with.
struct Suspended {
    ctx: MetalContext,
    session: usize,
}

/// One piece of work: the ledger of its buffers and the device that holds them.
struct Work<'a, D: Device> {
    pub ctx: MetalContext,
    session: usize,
    device: &'a mut D,
}

impl<'a, D: Device> Work<'a, D> {
    fn new(device: &'a mut D) -> Result<Self> {
        let session = device.begin();
        match MetalContext::new(true) {
            Ok(ctx) => Ok(Work { ctx, session, device }),
            Err(e) => Err(compilation(e, String::new())),
        }
    }

    fn resume(device: &'a mut D, suspended: Suspended) -> Self {
        device.resume(suspended.session);
        Work { ctx: suspended.ctx, session: suspended.session, device }
    }

    fn suspend(self) -> Suspended {
        self.device.keep(self.session);
        Suspended { ctx: self.ctx, session: self.session }
    }

    /// Fills a buffer with numbers.
    fn put(&mut self, buffer: Buffer, values: &[f32]) {
        let words: Vec<u32> = values.iter().map(|v| v.to_bits()).collect();
        self.put_words(buffer, &words);
    }

    /// Fills a buffer with words.
    fn put_words(&mut self, buffer: Buffer, words: &[u32]) {
        assert!(self.ctx.write_buffer(&buffer, words.len()));
        self.device.upload(buffer, words);
    }

    /// Makes a buffer whose contents nothing has set.
    fn make(&mut self, buffer: Buffer) {
        self.device.allocate(buffer);
    }

    /// Reads numbers from a buffer.
    fn take(&self, buffer: Buffer, count: usize) -> Vec<f32> {
        self.take_words(buffer, count)
            .into_iter()
            .map(f32::from_bits)
            .collect()
    }

    /// Reads words from a buffer.
    fn take_words(&self, buffer: Buffer, count: usize) -> Vec<u32> {
        assert!(self.ctx.read_buffer(&buffer, count));
        self.device.download(buffer, count)
    }

    /// Runs a kernel whose pipeline the model keeps.
    fn run(&mut self, cache: &mut PipelineCache, launch: &Launch) -> Result<()> {
        let pipeline = match cache.cached(launch.kernel) {
            Some(pipeline) => pipeline,
            None => {
                let outcome = self.device.compile(launch.kernel);
                match cache.get(&self.ctx, launch.kernel, outcome) {
                    Ok(pipeline) => pipeline,
                    Err(PipelineError::Unknown(kernel)) => {
                        return error(format!("Unknown pipeline: {}", kernel.name()));
                    }
                    Err(PipelineError::Compilation(e)) => {
                        return Err(compilation(e, self.device.detail()));
                    }
                }
            }
        };
        self.device.run(pipeline, launch);
        Ok(())
    }

    /// Makes the pipeline of a kernel.
    fn compile(&mut self, kernel: Kernel) -> Result<usize> {
        let outcome = self.device.compile(kernel);
        self.ctx
            .compile_kernel(kernel, outcome)
            .map_err(|e| compilation(e, self.device.detail()))
    }

    /// Runs a kernel whose pipeline was made before.
    fn run_compiled(&mut self, pipeline: usize, launch: &Launch) {
        self.device.run(pipeline, launch);
    }

    /// Runs a kernel whose pipeline is made for this time.
    fn run_once(&mut self, launch: &Launch) -> Result<()> {
        let pipeline = self.compile(launch.kernel)?;
        self.run_compiled(pipeline, launch);
        Ok(())
    }
}

/// Fails where a buffer of `rows` times `columns` elements could not be measured in bytes.
fn check_size(rows: usize, columns: usize) {
    let bytes = rows.checked_mul(columns).and_then(|elements| elements.checked_mul(4));
    assert!(
        bytes.and_then(|bytes| bytes.checked_add(1024)).is_some(),
        "attempt to multiply with overflow"
    );
}

/// A device of the host: each kernel is a plain loop.
struct Host {
    memory: Vec<Vec<u32>>,
    kept: Vec<Vec<Vec<u32>>>,
    session: usize,
    detail: String,
}

impl Host {
    fn new() -> Host {
        Host { memory: Vec::new(), kept: Vec::new(), session: 0, detail: String::new() }
    }

    fn buffer(&self, launch: &Launch, i: usize) -> Buffer {
        match launch.arguments[i] {
            Argument::Memory(buffer) => {
                assert_eq!(self.memory[buffer.id].len() as u64 * 4, buffer.byte_len);
                buffer
            }
            _ => panic!("argument {} of {} is no buffer", i, launch.kernel.name()),
        }
    }

    fn words(&self, launch: &Launch, i: usize) -> Vec<u32> {
        self.memory[self.buffer(launch, i).id].clone()
    }

    fn floats(&self, launch: &Launch, i: usize) -> Vec<f32> {
        self.words(launch, i).into_iter().map(f32::from_bits).collect()
    }

    fn word(&self, launch: &Launch, i: usize) -> usize {
        match launch.arguments[i] {
            Argument::Word(word) => word as usize,
            _ => panic!("argument {} of {} is no word", i, launch.kernel.name()),
        }
    }

    fn number(&self, launch: &Launch, i: usize) -> f32 {
        match launch.arguments[i] {
            Argument::Real(value) => to_float(value),
            _ => panic!("argument {} of {} is no number", i, launch.kernel.name()),
        }
    }

    fn store_words(&mut self, launch: &Launch, i: usize, words: &[u32]) {
        let id = self.buffer(launch, i).id;
        self.memory[id][..words.len()].copy_from_slice(words);
    }

    fn store(&mut self, launch: &Launch, i: usize, values: &[f32]) {
        let words: Vec<u32> = values.iter().map(|v| v.to_bits()).collect();
        self.store_words(launch, i, &words);
    }
}

impl Device for Host {
    fn begin(&mut self) -> usize {
        self.memory.clear();
        self.session = self.kept.len();
        self.session
    }

    fn resume(&mut self, session: usize) {
        self.memory = self.kept[session].clone();
        self.session = session;
    }

    fn keep(&mut self, session: usize) {
        assert_eq!(session, self.session);
        if session == self.kept.len() {
            self.kept.push(Vec::new());
        }
        self.kept[session] = self.memory.clone();
    }

    fn compile(&mut self, _kernel: Kernel) -> CompileOutcome {
        CompileOutcome::Compiled(0)
    }

    fn detail(&self) -> String {
        self.detail.clone()
    }

    fn upload(&mut self, buffer: Buffer, words: &[u32]) {
        self.allocate(buffer);
        self.memory[buffer.id][..words.len()].copy_from_slice(words);
    }

    fn allocate(&mut self, buffer: Buffer) {
        while self.memory.len() <= buffer.id {
            self.memory.push(Vec::new());
        }
        self.memory[buffer.id] = vec![0xffff_ffff; buffer.byte_len as usize / 4];
    }

    fn run(&mut self, _pipeline: usize, launch: &Launch) {
        assert!(launch.groups.width > 0 || launch.groups.height > 0);
        assert!(launch.threadgroup_bytes <= 32768);
        self.execute(launch);
    }

    fn download(&self, buffer: Buffer, words: usize) -> Vec<u32> {
        self.memory[buffer.id][..words].to_vec()
    }
}

impl Host {
    fn execute(&mut self, launch: &Launch) {
        match launch.kernel {
            Kernel::GnbReducePartials => {
                let x = self.floats(launch, 0);
                let ids = self.words(launch, 1);
                let (n, k, d) = (
                    self.word(launch, 5),
                    self.word(launch, 6),
                    self.word(launch, 7),
                );
                let groups = launch.groups.width as usize;
                assert_eq!(launch.threadgroup_bytes as usize, (2 * d + 1) * k * 4);
                let mut sums = vec![0.0f32; groups * k * d];
                let mut squares = vec![0.0f32; groups * k * d];
                let mut counts = vec![0.0f32; groups * k];
                for i in 0..n {
                    let at = (i / 128) * k + ids[i] as usize;
                    counts[at] += 1.0;
                    for j in 0..d {
                        sums[at * d + j] += x[i * d + j];
                        squares[at * d + j] += x[i * d + j] * x[i * d + j];
                    }
                }
                self.store(launch, 2, &sums);
                self.store(launch, 3, &squares);
                self.store(launch, 4, &counts);
            }
            Kernel::GnbReduceSum => {
                let (groups, k, d) = (
                    self.word(launch, 6),
                    self.word(launch, 7),
                    self.word(launch, 8),
                );
                for (i, width) in [(0, k * d), (1, k * d), (2, k)] {
                    let partials = self.floats(launch, i);
                    let sums: Vec<f32> = (0..width)
                        .map(|e| (0..groups).map(|g| partials[g * width + e]).sum())
                        .collect();
                    self.store(launch, i + 3, &sums);
                }
            }
            Kernel::GnbPredictLogp => {
                let x = self.floats(launch, 0);
                let means = self.floats(launch, 1);
                let variances = self.floats(launch, 2);
                let log_priors = self.floats(launch, 3);
                let (n, k, d) = (
                    self.word(launch, 5),
                    self.word(launch, 6),
                    self.word(launch, 7),
                );
                let mut out = Vec::new();
                for i in 0..n {
                    for c in 0..k {
                        let mut logp = log_priors[c];
                        for j in 0..d {
                            let v = variances[c * d + j].max(1e-30);
                            let diff = x[i * d + j] - means[c * d + j];
                            logp -= 0.5 * ((std::f32::consts::TAU * v).ln() + diff * diff / v);
                        }
                        out.push(logp);
                    }
                }
                self.store(launch, 4, &out);
            }
            _ => panic!("{} is no kernel of this model", launch.kernel.name()),
        }
    }
}

struct GaussianNBConfig {
    pub var_smoothing: f32,
}

impl Default for GaussianNBConfig {
    fn default() -> Self {
        GaussianNBConfig {
            var_smoothing: to_float(lib::GaussianNBConfig::default().var_smoothing),
        }
    }
}

/// Gaussian naive Bayes.
struct GaussianNB {
    model: lib::GaussianNB,
}

fn refused(e: lib::GaussianNBError, y: &[f32], n_classes: usize) -> Error {
    Error::msg(match e {
        lib::GaussianNBError::Empty => "Data must be non-empty".to_string(),
        lib::GaussianNBError::Classes(_) => "n_classes must be at least 2".to_string(),
        lib::GaussianNBError::DataLength { n, d, got } => {
            format!("Data length mismatch: expected {} got {}", n * d, got)
        }
        lib::GaussianNBError::LabelLength { expected, got } => {
            format!("Labels length mismatch: expected {} got {}", expected, got)
        }
        lib::GaussianNBError::VarSmoothing(_) => {
            "var_smoothing must be a finite, non-negative value".to_string()
        }
        lib::GaussianNBError::SharedMemory { n_classes, d } => format!(
            "n_classes*d too large ({}): shared memory for the reduction would exceed 32 KB",
            (2 * d + 1) * n_classes * 4
        ),
        lib::GaussianNBError::Label { index } => format!(
            "label {} at index {} is not an integer class id in [0, {})",
            y[index], index, n_classes
        ),
        lib::GaussianNBError::NoSamples { class } => format!("class {} has no samples", class),
        lib::GaussianNBError::NotFitted => "Model is not fitted".to_string(),
        lib::GaussianNBError::Dimension { expected, got } => {
            format!("Feature count mismatch: expected {} got {}", expected, got)
        }
    })
}

fn log_sum_exp(row: &[f32]) -> f32 {
    let maxv = to_float(maximum(&bits(row), 0, row.len()));
    maxv + row.iter().map(|v| (*v - maxv).exp()).sum::<f32>().ln()
}

impl GaussianNB {
    fn new(config: GaussianNBConfig) -> Self {
        GaussianNB {
            model: lib::GaussianNB::new(lib::GaussianNBConfig {
                var_smoothing: bit(config.var_smoothing),
            }),
        }
    }

    fn n_classes(&self) -> usize {
        self.model.n_classes()
    }

    fn n_features(&self) -> usize {
        self.model.n_features()
    }

    fn n_samples(&self) -> usize {
        self.model.n_samples()
    }

    fn means(&self) -> Vec<f32> {
        to_floats(self.model.means())
    }

    fn variances(&self) -> Vec<f32> {
        to_floats(self.model.variances())
    }

    fn priors(&self) -> Vec<f32> {
        to_floats(self.model.priors())
    }

    fn class_prior(&self) -> Vec<f32> {
        to_floats(self.model.class_prior())
    }

    fn fit<D: Device>(
        &mut self,
        device: &mut D,
        data: &[f32],
        y: &[f32],
        n: usize,
        d: usize,
        n_classes: usize,
    ) -> Result<()> {
        let mut work = Work::new(device)?;
        let pass = self
            .model
            .fit(&mut work.ctx, &bits(data), &bits(y), n, d, n_classes)
            .map_err(|e| refused(e, y, n_classes))?;
        let b = pass.buffers;
        work.put(b.x, data);
        work.put_words(b.y, &pass.ids);
        for buffer in [
            b.sum_partials,
            b.square_partials,
            b.count_partials,
            b.sums,
            b.squares,
            b.counts,
        ] {
            work.make(buffer);
        }
        work.run(&mut self.model.pipelines, &pass.partials)?;
        work.run(&mut self.model.pipelines, &pass.sum)?;
        let kd = n_classes * d;
        let sums = work.take(b.sums, kd);
        let squares = work.take(b.squares, kd);
        let counts = work.take(b.counts, n_classes);
        lib::GaussianNB::check_counts(&bits(&counts)).map_err(|e| match e {
            lib::GaussianNBError::NoSamples { class } => Error::msg(format!(
                "class {} has no samples (count = {})",
                class, counts[class]
            )),
            other => refused(other, y, n_classes),
        })?;
        let means: Vec<f32> = (0..kd).map(|i| sums[i] / counts[i / d]).collect();
        let mut variances: Vec<f32> = (0..kd)
            .map(|i| squares[i] / counts[i / d] - means[i] * means[i])
            .collect();
        let max_var = variances.iter().fold(0.0f32, |m, v| if *v > m { *v } else { m });
        let smoothing = to_float(self.model.config.var_smoothing) * max_var;
        for v in variances.iter_mut() {
            *v = v.max(0.0) + smoothing;
        }
        let priors: Vec<f32> = counts.iter().map(|c| c / n as f32).collect();
        let log_priors: Vec<f32> = priors.iter().map(|p| p.ln()).collect();
        self.model
            .finish(bits(&means), bits(&variances), bits(&priors), bits(&log_priors));
        Ok(())
    }

    fn predict_logp<D: Device>(
        &mut self,
        device: &mut D,
        data: &[f32],
        n: usize,
        d: usize,
    ) -> Result<Vec<f32>> {
        let mut work = Work::new(device)?;
        if n <= data.len() {
            check_size(n, self.model.k);
        }
        let pass = self
            .model
            .predict_logp(&mut work.ctx, &bits(data), n, d)
            .map_err(|e| refused(e, &[], 0))?;
        let b = pass.buffers;
        work.put(b.x, data);
        work.put(b.means, &self.means());
        work.put(b.variances, &self.variances());
        work.put(b.log_priors, &to_floats(&self.model.log_priors));
        work.make(b.out);
        work.run(&mut self.model.pipelines, &pass.launch)?;
        Ok(work.take(b.out, n * self.model.k))
    }

    fn predict<D: Device>(
        &mut self,
        device: &mut D,
        data: &[f32],
        n: usize,
        d: usize,
    ) -> Result<Vec<f32>> {
        let logp = self.predict_logp(device, data, n, d)?;
        Ok(to_floats(&self.model.predict(&bits(&logp), n)))
    }

    fn predict_log_proba<D: Device>(
        &mut self,
        device: &mut D,
        data: &[f32],
        n: usize,
        d: usize,
    ) -> Result<Vec<f32>> {
        let logp = self.predict_logp(device, data, n, d)?;
        let k = self.model.k;
        Ok((0..n)
            .flat_map(|i| {
                let row = &logp[i * k..(i + 1) * k];
                let lse = log_sum_exp(row);
                row.iter().map(|v| v - lse).collect::<Vec<f32>>()
            })
            .collect())
    }

    fn predict_proba<D: Device>(
        &mut self,
        device: &mut D,
        data: &[f32],
        n: usize,
        d: usize,
    ) -> Result<Vec<f32>> {
        let logp = self.predict_log_proba(device, data, n, d)?;
        Ok(logp.iter().map(|v| v.exp()).collect())
    }

    fn score<D: Device>(
        &mut self,
        device: &mut D,
        data: &[f32],
        y: &[f32],
        n: usize,
        d: usize,
    ) -> Result<f32> {
        lib::GaussianNB::check_score(&bits(y), n).map_err(|e| refused(e, y, 0))?;
        let preds = self.predict(device, data, n, d)?;
        let gaps: Vec<f32> = preds.iter().zip(y).map(|(p, t)| p - t).collect();
        Ok(lib::GaussianNB::score(&bits(&gaps)) as f32 / n as f32)
    }
}


/// Reference (host) Gaussian Naive Bayes statistics + posterior, used to
/// validate the GPU reduction and predict kernels.
fn ref_stats(data: &[f32], y: &[f32], n: usize, d: usize, k: usize) -> (Vec<f32>, Vec<f32>) {
    let mut sum = vec![0.0f32; k * d];
    let mut sumsq = vec![0.0f32; k * d];
    let mut cnt = vec![0.0f32; k];
    for i in 0..n {
        let c = y[i] as usize;
        cnt[c] += 1.0;
        for j in 0..d {
            sum[c * d + j] += data[i * d + j];
            sumsq[c * d + j] += data[i * d + j] * data[i * d + j];
        }
    }
    let mut mean = vec![0.0f32; k * d];
    let mut var = vec![0.0f32; k * d];
    for c in 0..k {
        for j in 0..d {
            mean[c * d + j] = sum[c * d + j] / cnt[c];
            var[c * d + j] = sumsq[c * d + j] / cnt[c] - mean[c * d + j] * mean[c * d + j];
        }
    }
    (mean, var)
}

#[test]
fn gnb_reduction_matches_reference() {
    let mut ctx = Host::new();
    let n = 24;
    let d = 3;
    let k = 2;
    let data: Vec<f32> = (0..n * d)
        .map(|i| {
            // class 0 centred near -1, class 1 near +1 per feature
            let sample = i / d;
            let base = if sample < 12 { -1.0 } else { 1.0 };
            base + (i as f32 * 0.37 % 0.5)
        })
        .collect();
    let y: Vec<f32> = (0..n).map(|i| if i < 12 { 0.0 } else { 1.0 }).collect();

    let mut gnb = GaussianNB::new(GaussianNBConfig {
        var_smoothing: 1e-9,
    });
    gnb.fit(&mut ctx, &data, &y, n, d, k).unwrap();

    let (em, ev) = ref_stats(&data, &y, n, d, k);
    for j in 0..k * d {
        assert!(
            (gnb.means()[j] - em[j]).abs() < 1e-4,
            "mean[{}] {} != {}",
            j,
            gnb.means()[j],
            em[j]
        );
        assert!(
            (gnb.variances()[j] - ev[j]).abs() < 1e-4,
            "var[{}] {} != {}",
            j,
            gnb.variances()[j],
            ev[j]
        );
    }
}

#[test]
fn gnb_predict_classifies_and_normalizes() {
    let mut ctx = Host::new();
    let n = 20;
    let d = 2;
    let k = 2;
    let data: Vec<f32> = (0..n * d)
        .map(|i| {
            let s = i / d;
            let f = i % d;
            let base = if s < 10 { -2.0 } else { 2.0 };
            base + (f as f32 * 0.1)
        })
        .collect();
    let y: Vec<f32> = (0..n).map(|i| if i < 10 { 0.0 } else { 1.0 }).collect();

    let mut gnb = GaussianNB::new(GaussianNBConfig::default());
    gnb.fit(&mut ctx, &data, &y, n, d, k).unwrap();

    // Test on the training data (separable) -> perfect accuracy.
    let acc = gnb.score(&mut ctx, &data, &y, n, d).unwrap();
    assert_eq!(acc, 1.0, "separable data should classify perfectly");

    let proba = gnb.predict_proba(&mut ctx, &data, n, d).unwrap();
    for i in 0..n {
        let row: f32 = (0..k).map(|c| proba[i * k + c]).sum();
        assert!((row - 1.0).abs() < 1e-4, "proba row {} sums to {}", i, row);
        assert!(proba[i * k + 0..i * k + k].iter().all(|v| v.is_finite()));
    }
}

#[test]
fn gnb_multigroup_reduction_it_three_classes() {
    let mut ctx = Host::new();
    // n > GNB_PTILE (128) forces the multi-threadgroup partial-combine path.
    let n = 400;
    let d = 4;
    let k = 3;
    let mut data = Vec::with_capacity(n * d);
    let mut y = Vec::with_capacity(n);
    for i in 0..n {
        let c = i % k;
        y.push(c as f32);
        for j in 0..d {
            let center = (c as f32) * 1.7;
            data.push(center + ((i as f32 * 0.21 + j as f32) % 0.3));
        }
    }

    let mut gnb = GaussianNB::new(GaussianNBConfig::default());
    gnb.fit(&mut ctx, &data, &y, n, d, k).unwrap();
    let (em, ev) = ref_stats(&data, &y, n, d, k);
    for j in 0..k * d {
        assert!((gnb.means()[j] - em[j]).abs() < 1e-4, "mean[{}]", j);
        assert!((gnb.variances()[j] - ev[j]).abs() < 1e-4, "var[{}]", j);
    }
    let acc = gnb.score(&mut ctx, &data, &y, n, d).unwrap();
    assert_eq!(
        acc, 1.0,
        "three separable classes should classify perfectly"
    );
}
