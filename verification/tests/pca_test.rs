//! Principal component analysis, with the kernels run on the host.
#![allow(dead_code)]

use anyhow::{Error, Result};
use metal_operators::float::Float32;
use metal_operators::metal::{Argument, Buffer, CompileOutcome, Kernel, Launch, MetalContext, MetalError};
use metal_operators::pipeline::{PipelineCache, PipelineError};
use metal_operators::matrix::{ascending_order, gather, pick_columns, transpose};
use metal_operators::pca as lib;
use fastrand::Rng;

/// What carries out the work: a device that holds buffers and runs kernels.
trait Device {
    /// Opens a place for the buffers of a piece of work. Those of the work before are
    /// forgotten, unless they are kept.
    fn begin(&mut self) -> usize;
    /// Goes on with the buffers of an earlier piece of work.
    fn resume(&mut self, session: usize);
    /// Keeps the buffers of a piece of work for later.
    fn keep(&mut self, session: usize);
    /// Asks for the pipeline of a kernel.
    fn compile(&mut self, kernel: Kernel) -> CompileOutcome;
    /// What the device said of the last request that failed.
    fn detail(&self) -> String;
    /// Makes a buffer that holds `words`, or fills one that is there.
    fn upload(&mut self, buffer: Buffer, words: &[u32]);
    /// Makes a buffer whose contents nothing has set.
    fn allocate(&mut self, buffer: Buffer);
    /// Runs a kernel and waits for it.
    fn run(&mut self, pipeline: usize, launch: &Launch);
    /// Reads from the start of a buffer.
    fn download(&self, buffer: Buffer, words: usize) -> Vec<u32>;
}

/// The bits of numbers, of which there are no more than buffers can be measured for.
fn bits(values: &[f32]) -> Vec<Float32> {
    check_size(values.len(), 64);
    values.iter().map(|v| bit(*v)).collect()
}

/// The bits of a number.
fn bit(value: f32) -> Float32 {
    Float32 { bits: value.to_bits() }
}

/// The numbers that bits stand for.
fn to_floats(values: &[Float32]) -> Vec<f32> {
    values.iter().map(|v| to_float(*v)).collect()
}

/// The number that bits stand for.
fn to_float(value: Float32) -> f32 {
    f32::from_bits(value.bits)
}

/// An error with this message.
fn error<T>(message: String) -> Result<T> {
    Err(Error::msg(message))
}

fn compilation(kind: MetalError, detail: String) -> Error {
    Error::msg(match kind {
        MetalError::NoDevice => "No Metal device found".to_string(),
        MetalError::ShaderCompilation => format!("Shader compilation failed: {}", detail),
        MetalError::FunctionNotFound(kernel) => {
            format!("Function '{}' not found: {}", kernel.name(), detail)
        }
        MetalError::PipelineCreation => format!("Pipeline creation failed: {}", detail),
    })
}

/// A piece of work that can be gone on with.
struct Suspended {
    ctx: MetalContext,
    session: usize,
}

/// One piece of work: the ledger of its buffers and the device that holds them.
struct Work<'a, D: Device> {
    pub ctx: MetalContext,
    session: usize,
    device: &'a mut D,
}

impl<'a, D: Device> Work<'a, D> {
    fn new(device: &'a mut D) -> Result<Self> {
        let session = device.begin();
        match MetalContext::new(true) {
            Ok(ctx) => Ok(Work { ctx, session, device }),
            Err(e) => Err(compilation(e, String::new())),
        }
    }

    fn resume(device: &'a mut D, suspended: Suspended) -> Self {
        device.resume(suspended.session);
        Work { ctx: suspended.ctx, session: suspended.session, device }
    }

    fn suspend(self) -> Suspended {
        self.device.keep(self.session);
        Suspended { ctx: self.ctx, session: self.session }
    }

    /// Fills a buffer with numbers.
    fn put(&mut self, buffer: Buffer, values: &[f32]) {
        let words: Vec<u32> = values.iter().map(|v| v.to_bits()).collect();
        self.put_words(buffer, &words);
    }

    /// Fills a buffer with words.
    fn put_words(&mut self, buffer: Buffer, words: &[u32]) {
        assert!(self.ctx.write_buffer(&buffer, words.len()));
        self.device.upload(buffer, words);
    }

    /// Makes a buffer whose contents nothing has set.
    fn make(&mut self, buffer: Buffer) {
        self.device.allocate(buffer);
    }

    /// Reads numbers from a buffer.
    fn take(&self, buffer: Buffer, count: usize) -> Vec<f32> {
        self.take_words(buffer, count)
            .into_iter()
            .map(f32::from_bits)
            .collect()
    }

    /// Reads words from a buffer.
    fn take_words(&self, buffer: Buffer, count: usize) -> Vec<u32> {
        assert!(self.ctx.read_buffer(&buffer, count));
        self.device.download(buffer, count)
    }

    /// Runs a kernel whose pipeline the model keeps.
    fn run(&mut self, cache: &mut PipelineCache, launch: &Launch) -> Result<()> {
        let pipeline = match cache.cached(launch.kernel) {
            Some(pipeline) => pipeline,
            None => {
                let outcome = self.device.compile(launch.kernel);
                match cache.get(&self.ctx, launch.kernel, outcome) {
                    Ok(pipeline) => pipeline,
                    Err(PipelineError::Unknown(kernel)) => {
                        return error(format!("Unknown pipeline: {}", kernel.name()));
                    }
                    Err(PipelineError::Compilation(e)) => {
                        return Err(compilation(e, self.device.detail()));
                    }
                }
            }
        };
        self.device.run(pipeline, launch);
        Ok(())
    }

    /// Makes the pipeline of a kernel.
    fn compile(&mut self, kernel: Kernel) -> Result<usize> {
        let outcome = self.device.compile(kernel);
        self.ctx
            .compile_kernel(kernel, outcome)
            .map_err(|e| compilation(e, self.device.detail()))
    }

    /// Runs a kernel whose pipeline was made before.
    fn run_compiled(&mut self, pipeline: usize, launch: &Launch) {
        self.device.run(pipeline, launch);
    }

    /// Runs a kernel whose pipeline is made for this time.
    fn run_once(&mut self, launch: &Launch) -> Result<()> {
        let pipeline = self.compile(launch.kernel)?;
        self.run_compiled(pipeline, launch);
        Ok(())
    }
}

/// Fails where a buffer of `rows` times `columns` elements could not be measured in bytes.
fn check_size(rows: usize, columns: usize) {
    let bytes = rows.checked_mul(columns).and_then(|elements| elements.checked_mul(4));
    assert!(
        bytes.and_then(|bytes| bytes.checked_add(1024)).is_some(),
        "attempt to multiply with overflow"
    );
}

/// A device of the host: each kernel is a plain loop.
struct Host {
    memory: Vec<Vec<u32>>,
    kept: Vec<Vec<Vec<u32>>>,
    session: usize,
    detail: String,
}

impl Host {
    fn new() -> Host {
        Host { memory: Vec::new(), kept: Vec::new(), session: 0, detail: String::new() }
    }

    fn buffer(&self, launch: &Launch, i: usize) -> Buffer {
        match launch.arguments[i] {
            Argument::Memory(buffer) => {
                assert_eq!(self.memory[buffer.id].len() as u64 * 4, buffer.byte_len);
                buffer
            }
            _ => panic!("argument {} of {} is no buffer", i, launch.kernel.name()),
        }
    }

    fn words(&self, launch: &Launch, i: usize) -> Vec<u32> {
        self.memory[self.buffer(launch, i).id].clone()
    }

    fn floats(&self, launch: &Launch, i: usize) -> Vec<f32> {
        self.words(launch, i).into_iter().map(f32::from_bits).collect()
    }

    fn word(&self, launch: &Launch, i: usize) -> usize {
        match launch.arguments[i] {
            Argument::Word(word) => word as usize,
            _ => panic!("argument {} of {} is no word", i, launch.kernel.name()),
        }
    }

    fn number(&self, launch: &Launch, i: usize) -> f32 {
        match launch.arguments[i] {
            Argument::Real(value) => to_float(value),
            _ => panic!("argument {} of {} is no number", i, launch.kernel.name()),
        }
    }

    fn store_words(&mut self, launch: &Launch, i: usize, words: &[u32]) {
        let id = self.buffer(launch, i).id;
        self.memory[id][..words.len()].copy_from_slice(words);
    }

    fn store(&mut self, launch: &Launch, i: usize, values: &[f32]) {
        let words: Vec<u32> = values.iter().map(|v| v.to_bits()).collect();
        self.store_words(launch, i, &words);
    }
}

impl Device for Host {
    fn begin(&mut self) -> usize {
        self.memory.clear();
        self.session = self.kept.len();
        self.session
    }

    fn resume(&mut self, session: usize) {
        self.memory = self.kept[session].clone();
        self.session = session;
    }

    fn keep(&mut self, session: usize) {
        assert_eq!(session, self.session);
        if session == self.kept.len() {
            self.kept.push(Vec::new());
        }
        self.kept[session] = self.memory.clone();
    }

    fn compile(&mut self, _kernel: Kernel) -> CompileOutcome {
        CompileOutcome::Compiled(0)
    }

    fn detail(&self) -> String {
        self.detail.clone()
    }

    fn upload(&mut self, buffer: Buffer, words: &[u32]) {
        self.allocate(buffer);
        self.memory[buffer.id][..words.len()].copy_from_slice(words);
    }

    fn allocate(&mut self, buffer: Buffer) {
        while self.memory.len() <= buffer.id {
            self.memory.push(Vec::new());
        }
        self.memory[buffer.id] = vec![0xffff_ffff; buffer.byte_len as usize / 4];
    }

    fn run(&mut self, _pipeline: usize, launch: &Launch) {
        assert!(launch.groups.width > 0 || launch.groups.height > 0);
        assert!(launch.threadgroup_bytes <= 32768);
        self.execute(launch);
    }

    fn download(&self, buffer: Buffer, words: usize) -> Vec<u32> {
        self.memory[buffer.id][..words].to_vec()
    }
}

/// The eigenvalues of a symmetric matrix by ascending value, and its eigenvectors one after the
/// other.
fn ssyevd(a: &[f32], m: usize) -> Result<(Vec<f32>, Vec<f32>)> {
    let mut a: Vec<f64> = a.iter().map(|v| *v as f64).collect();
    let mut v = vec![0.0f64; m * m];
    for i in 0..m {
        v[i * m + i] = 1.0;
    }
    for _ in 0..60 {
        for p in 0..m {
            for q in p + 1..m {
                if a[p * m + q].abs() < 1e-300 {
                    continue;
                }
                let tau = (a[q * m + q] - a[p * m + p]) / (2.0 * a[p * m + q]);
                let t = tau.signum() / (tau.abs() + (1.0 + tau * tau).sqrt());
                let c = 1.0 / (1.0 + t * t).sqrt();
                let s = t * c;
                for r in 0..m {
                    let (x, y) = (a[r * m + p], a[r * m + q]);
                    a[r * m + p] = c * x - s * y;
                    a[r * m + q] = s * x + c * y;
                }
                for r in 0..m {
                    let (x, y) = (a[p * m + r], a[q * m + r]);
                    a[p * m + r] = c * x - s * y;
                    a[q * m + r] = s * x + c * y;
                    let (x, y) = (v[r * m + p], v[r * m + q]);
                    v[r * m + p] = c * x - s * y;
                    v[r * m + q] = s * x + c * y;
                }
            }
        }
    }
    let mut order: Vec<usize> = (0..m).collect();
    order.sort_by(|i, j| a[i * m + i].partial_cmp(&a[j * m + j]).unwrap());
    let values = order.iter().map(|i| a[i * m + i] as f32).collect();
    let vectors = order
        .iter()
        .flat_map(|i| (0..m).map(|r| v[r * m + i] as f32).collect::<Vec<f32>>())
        .collect();
    Ok((values, vectors))
}

impl Host {
    fn execute(&mut self, launch: &Launch) {
        match launch.kernel {
            Kernel::PcaMean => {
                let x = self.floats(launch, 0);
                let (n, d, blocks) = (
                    self.word(launch, 3),
                    self.word(launch, 4),
                    self.word(launch, 5),
                );
                assert_eq!(launch.groups.width as usize, blocks);
                let mut sums = vec![0.0f32; blocks * d];
                for i in 0..n {
                    for j in 0..d {
                        sums[(i / 256) * d + j] += x[i * d + j];
                    }
                }
                self.store(launch, 2, &sums);
            }
            Kernel::PcaMeanFinal => {
                let sums = self.floats(launch, 0);
                let (blocks, d, n) = (
                    self.word(launch, 2),
                    self.word(launch, 3),
                    self.word(launch, 4),
                );
                let means: Vec<f32> = (0..d)
                    .map(|j| (0..blocks).map(|b| sums[b * d + j]).sum::<f32>() / n as f32)
                    .collect();
                self.store(launch, 1, &means);
            }
            Kernel::PcaCenter => {
                let x = self.floats(launch, 0);
                let means = self.floats(launch, 1);
                let d = self.word(launch, 4);
                let centered: Vec<f32> =
                    x.iter().enumerate().map(|(i, v)| v - means[i % d]).collect();
                self.store(launch, 2, &centered);
            }
            Kernel::PcaTranspose => {
                let x = self.floats(launch, 0);
                let (n, d) = (self.word(launch, 2), self.word(launch, 3));
                let turned: Vec<f32> = (0..n * d).map(|i| x[(i % n) * d + i / n]).collect();
                self.store(launch, 1, &turned);
            }
            Kernel::PcaMatmul => {
                let a = self.floats(launch, 0);
                let b = self.floats(launch, 1);
                let (rows, inner, columns) = (
                    self.word(launch, 3),
                    self.word(launch, 4),
                    self.word(launch, 5),
                );
                assert_eq!((self.word(launch, 6), self.word(launch, 7)), (inner, columns));
                let product: Vec<f32> = (0..rows * columns)
                    .map(|e| {
                        (0..inner)
                            .map(|k| {
                                a[(e / columns) * inner + k] as f64
                                    * b[k * columns + e % columns] as f64
                            })
                            .sum::<f64>() as f32
                    })
                    .collect();
                self.store(launch, 2, &product);
            }
            Kernel::LdaScatter => {
                let x = self.floats(launch, 0);
                let (n, d) = (self.word(launch, 2), self.word(launch, 3));
                let product: Vec<f32> = (0..d * d)
                    .map(|e| {
                        (0..n)
                            .map(|i| x[i * d + e / d] as f64 * x[i * d + e % d] as f64)
                            .sum::<f64>() as f32
                    })
                    .collect();
                self.store(launch, 1, &product);
            }
            Kernel::PcaTransform | Kernel::LdaTransform => {
                let x = self.floats(launch, 0);
                let means = self.floats(launch, 1);
                let axes = self.floats(launch, 2);
                let (n, d, k) = (
                    self.word(launch, 4),
                    self.word(launch, 5),
                    self.word(launch, 6),
                );
                let out: Vec<f32> = (0..n * k)
                    .map(|e| {
                        (0..d)
                            .map(|j| (x[(e / k) * d + j] - means[j]) * axes[(e % k) * d + j])
                            .sum()
                    })
                    .collect();
                self.store(launch, 3, &out);
            }
            _ => panic!("{} is no kernel of this model", launch.kernel.name()),
        }
    }
}

struct PCAConfig {
    pub n_components: usize,
}

/// Principal component analysis.
struct PCA {
    model: lib::PCA,
}

fn refused(e: lib::PCAError) -> Error {
    Error::msg(match e {
        lib::PCAError::Empty => "Data must be non-empty".to_string(),
        lib::PCAError::DataLength => "Data length mismatch".to_string(),
        lib::PCAError::Components { d } => {
            format!("n_components must be between 1 and D ({})", d)
        }
        lib::PCAError::Dimension { expected, got } => {
            format!("Data dimension mismatch: got {}, expected {}", got, expected)
        }
        lib::PCAError::NotFitted => "PCA not fitted".to_string(),
        lib::PCAError::Found { components, wanted } => {
            format!("only {} of {} components were found", components, wanted)
        }
    })
}

fn rotate(a: &mut [f32], v: &mut [f32], m: usize, p: usize, q: usize) -> bool {
    let a_pq = a[p * m + q];
    let a_pp = a[p * m + p];
    let a_qq = a[q * m + q];
    let threshold = 1e-8f32 * (a_pp.abs() + a_qq.abs()) * 0.5;
    if !lib::Jacobi::rotates(bit(a_pq), bit(threshold)) {
        return false;
    }
    let tau = (a_qq - a_pp) / (2.0 * a_pq);
    let t = if tau >= 0.0 {
        1.0 / (tau + (1.0 + tau * tau).sqrt())
    } else {
        1.0 / (tau - (1.0 + tau * tau).sqrt())
    };
    let c = 1.0 / (1.0 + t * t).sqrt();
    let s = t * c;
    a[p * m + p] = c * c * a_pp + s * s * a_qq - 2.0 * c * s * a_pq;
    a[q * m + q] = s * s * a_pp + c * c * a_qq + 2.0 * c * s * a_pq;
    a[p * m + q] = 0.0;
    a[q * m + p] = 0.0;
    for r in 0..m {
        if r != p && r != q {
            let a_pr = a[p * m + r];
            let a_qr = a[q * m + r];
            a[p * m + r] = c * a_pr - s * a_qr;
            a[r * m + p] = a[p * m + r];
            a[q * m + r] = s * a_pr + c * a_qr;
            a[r * m + q] = a[q * m + r];
        }
        let v_rp = v[r * m + p];
        let v_rq = v[r * m + q];
        v[r * m + p] = c * v_rp - s * v_rq;
        v[r * m + q] = s * v_rp + c * v_rq;
    }
    true
}

/// The eigenvalues of a symmetric matrix by ascending value, and the eigenvectors as columns in
/// the same order, by Jacobi rotations.
fn eigh_cpu(a: &[f32], m: usize) -> Result<(Vec<f32>, Vec<f32>)> {
    if a.len() != m * m {
        return error("Matrix size mismatch".to_string());
    }
    let mut a_mat = a.to_vec();
    let mut v_mat = vec![0.0f32; m * m];
    for i in 0..m {
        v_mat[i * m + i] = 1.0;
    }
    let mut jacobi = lib::Jacobi::new(m);
    while let Some((p, q)) = jacobi.pair {
        let rotated = rotate(&mut a_mat, &mut v_mat, m, p, q);
        jacobi.advance(rotated);
    }
    let eigvals: Vec<f32> = (0..m).map(|i| a_mat[i * m + i]).collect();
    if m > 1 && eigvals.iter().any(|v| v.is_nan()) {
        panic!("an eigenvalue is not a number");
    }
    let values = bits(&eigvals);
    let order = ascending_order(&values);
    Ok((
        to_floats(&gather(&values, &order)),
        to_floats(&pick_columns(&bits(&v_mat), m, m, &order)),
    ))
}

/// The same by LAPACK, which leaves the eigenvectors one after the other.
fn eigh_accelerate(a: &[f32], m: usize) -> Result<(Vec<f32>, Vec<f32>)> {
    let (values, vectors) = ssyevd(a, m)?;
    let columns = to_floats(&transpose(&bits(&vectors), m, m));
    Ok((values, columns))
}

impl PCA {
    fn new(config: PCAConfig) -> Self {
        PCA {
            model: lib::PCA::new(lib::PCAConfig {
                n_components: config.n_components,
            }),
        }
    }

    fn components(&self) -> Vec<f32> {
        to_floats(self.model.components())
    }

    fn explained_variance(&self) -> Vec<f32> {
        to_floats(self.model.explained_variance())
    }

    fn explained_variance_ratio(&self) -> Vec<f32> {
        to_floats(self.model.explained_variance_ratio())
    }

    fn mean(&self) -> Vec<f32> {
        to_floats(self.model.mean())
    }

    fn singular_values(&self) -> Vec<f32> {
        to_floats(self.model.singular_values())
    }

    fn noise_variance(&self) -> f32 {
        to_float(self.model.noise_variance())
    }

    fn n_features(&self) -> usize {
        self.model.n_features()
    }

    fn n_samples(&self) -> usize {
        self.model.n_samples()
    }

    fn fit<D: Device>(&mut self, device: &mut D, data: &[f32], n: usize, d: usize) -> Result<()> {
        let mut work = Work::new(device)?;
        let pass = self
            .model
            .fit(&mut work.ctx, &bits(data), n, d)
            .map_err(refused)?;
        let b = pass.buffers;
        work.put(b.data, data);
        for buffer in [b.means, b.block_sums, b.centered, b.gram, b.centered_t] {
            work.make(buffer);
        }
        for launch in [
            &pass.mean,
            &pass.mean_final,
            &pass.center,
            &pass.transpose,
            &pass.matmul,
        ] {
            work.run(&mut self.model.pipelines, launch)?;
        }
        let mean = work.take(b.means, d);
        let m = n.min(d);
        let gram: Vec<f32> = work
            .take(b.gram, m * m)
            .into_iter()
            .map(|v| v * (1.0 / n as f32))
            .collect();
        let (values, vectors) = if lib::uses_jacobi(m) {
            eigh_cpu(&gram, m)?
        } else {
            eigh_accelerate(&gram, m)?
        };
        let k = self.model.component_count();
        let mut leading = to_floats(&lib::PCA::leading_columns(&bits(&vectors), m, k));
        if self.model.from_rows() {
            let centered = work.take(b.centered, n * d);
            let mut recovered = vec![0.0f32; d * k];
            for j in 0..k {
                let inv_sqrt = 1.0 / (values[m - k + j].max(1e-30) * n as f32).sqrt();
                for i in 0..d {
                    let mut sum = 0.0;
                    for r in 0..n {
                        sum += centered[r * d + i] * leading[r * k + j];
                    }
                    recovered[i * k + j] = sum * inv_sqrt;
                }
            }
            leading = recovered;
        }
        let total: f32 = values.iter().sum();
        let variances: Vec<f32> = (0..k).map(|j| values[m - 1 - j]).collect();
        let ratios: Vec<f32> = variances.iter().map(|v| v / total.max(1e-30)).collect();
        let singular: Vec<f32> = variances.iter().map(|v| (n as f32 * v).sqrt()).collect();
        let rest = self.model.noise_count();
        let noise = if rest > 0 {
            values[..rest].iter().sum::<f32>() / rest as f32
        } else {
            0.0
        };
        self.model.finish(
            bits(&mean),
            &bits(&values),
            &bits(&leading),
            bits(&ratios),
            bits(&singular),
            bit(noise),
        );
        Ok(())
    }

    fn transform<D: Device>(
        &mut self,
        device: &mut D,
        data: &[f32],
        n: usize,
        d: usize,
    ) -> Result<Vec<f32>> {
        let mut work = Work::new(device)?;
        let k = self.model.config.n_components;
        let pass = self
            .model
            .transform(&mut work.ctx, &bits(data), n, d)
            .map_err(refused)?;
        work.put(pass.x, data);
        work.put(pass.means, &self.mean());
        work.put(pass.components, &self.components());
        work.make(pass.out);
        work.run(&mut self.model.pipelines, &pass.launch)?;
        Ok(work.take(pass.out, n * k))
    }

    fn fit_transform<D: Device>(
        &mut self,
        device: &mut D,
        data: &[f32],
        n: usize,
        d: usize,
    ) -> Result<Vec<f32>> {
        self.fit(device, data, n, d)?;
        self.transform(device, data, n, d)
    }
}


fn get_context() -> Host {
    Host::new()
}

fn compute_gram_xtx(data: &[f32], n: usize, d: usize) -> Vec<f32> {
    let mut gram = vec![0.0f32; d * d];
    for i in 0..d {
        for j in 0..=i {
            let mut sum = 0.0;
            for k in 0..n {
                sum += data[k * d + i] * data[k * d + j];
            }
            gram[i * d + j] = sum;
            gram[j * d + i] = sum;
        }
    }
    gram
}

#[test]
fn pca_fit_smoke_test() {
    let mut ctx = get_context();
    let n = 100;
    let d = 8;
    let k = 3;
    let data = generate_data(n, d, 42);

    let mut pca = PCA::new(PCAConfig { n_components: k });
    pca.fit(&mut ctx, &data, n, d).expect("PCA fit failed");

    assert_eq!(pca.components().len(), k * d, "components should be (K, D)");
    assert_eq!(pca.explained_variance().len(), k, "explained_variance should be (K,)");
    assert_eq!(pca.explained_variance_ratio().len(), k, "explained_variance_ratio should be (K,)");
    assert_eq!(pca.mean().len(), d, "mean should be (D,)");
}

#[test]
fn pca_orthonormal_components() {
    let mut ctx = get_context();
    let n = 200;
    let d = 5;
    let k = 3;
    let data = generate_data(n, d, 123);

    let mut pca = PCA::new(PCAConfig { n_components: k });
    pca.fit(&mut ctx, &data, n, d).unwrap();

    // Reshape components as (K, D) — already row-major
    let comps = pca.components();

    // Check orthonormality: each component should have unit norm
    for i in 0..k {
        let row = &comps[i * d..(i + 1) * d];
        let norm: f32 = row.iter().map(|x| x * x).sum();
        assert!(
            (norm - 1.0).abs() < 1e-5,
            "Component {i} norm = {norm}, expected ~1.0"
        );
    }

    // Check orthogonality: different components should have near-zero dot product
    for i in 0..k {
        for j in (i + 1)..k {
            let row_i = &comps[i * d..(i + 1) * d];
            let row_j = &comps[j * d..(j + 1) * d];
            let dot: f32 = row_i.iter().zip(row_j.iter()).map(|(a, b)| a * b).sum();
            assert!(
                dot.abs() < 1e-5,
                "Component dot({i},{j}) = {dot}, expected 0"
            );
        }
    }
}

#[test]
fn pca_explained_variance_sum() {
    let mut ctx = get_context();
    let n = 100;
    let d = 6;
    let k = d; // all components
    let data = generate_data(n, d, 77);

    // Compute total variance of centered data
    let means: Vec<f32> = (0..d)
        .map(|col| {
            data.iter()
                .skip(col)
                .step_by(d)
                .sum::<f32>()
                / n as f32
        })
        .collect();
    let centered: Vec<f32> = data
        .iter()
        .enumerate()
        .map(|(idx, &x)| x - means[idx % d])
        .collect();
    let total_var: f32 = centered.iter().map(|x| x * x).sum::<f32>() / n as f32;

    let mut pca = PCA::new(PCAConfig { n_components: k });
    pca.fit(&mut ctx, &data, n, d).unwrap();

    let explained_var_sum: f32 = pca.explained_variance().iter().sum();
    let ratio_sum: f32 = pca.explained_variance_ratio().iter().sum();

    // When K=D, explained variance should sum to total variance
    let ratio = (explained_var_sum - total_var).abs() / total_var.max(1.0);
    assert!(
        ratio < 1e-3,
        "explained variance sum {explained_var_sum} != total variance {total_var}"
    );
    assert!(
        (ratio_sum - 1.0).abs() < 1e-3,
        "variance ratio sum = {ratio_sum}, expected 1.0"
    );
}

#[test]
fn pca_reconstruction_with_all_components() {
    let mut ctx = get_context();
    let n = 60;
    let d = 4;
    let k = d; // use all components
    let data = generate_data(n, d, 99);

    let mut pca = PCA::new(PCAConfig { n_components: k });
    pca.fit(&mut ctx, &data, n, d).unwrap();

    // Transform to latent space
    let transformed = pca.transform(&mut ctx, &data, n, d).unwrap();
    assert_eq!(transformed.len(), n * k);

    // Reconstruct: X_hat = transformed @ components + mean
    let mut reconstructed = vec![0.0f32; n * d];
    let comps = pca.components();
    let mean = pca.mean();
    for i in 0..n {
        for j in 0..d {
            let mut val = 0.0;
            for comp in 0..k {
                val += transformed[i * k + comp] * comps[comp * d + j];
            }
            reconstructed[i * d + j] = val + mean[j];
        }
    }

    // Check reconstruction error (should be near zero with all components)
    let mse: f32 = (0..n * d)
        .map(|idx| {
            let diff = data[idx] - reconstructed[idx];
            diff * diff
        })
        .sum::<f32>()
        / (n * d) as f32;

    assert!(
        mse < 1e-5,
        "Reconstruction MSE = {mse}, expected near zero"
    );
}

#[test]
fn pca_deterministic() {
    let mut ctx = get_context();
    let data = generate_data(80, 5, 42);

    let mut pca1 = PCA::new(PCAConfig { n_components: 3 });
    pca1.fit(&mut ctx, &data, 80, 5).unwrap();

    let mut pca2 = PCA::new(PCAConfig { n_components: 3 });
    pca2.fit(&mut ctx, &data, 80, 5).unwrap();

    // Components should be identical (component signs may differ, but dot products should be 1)
    let c1 = pca1.components();
    let c2 = pca2.components();
    for comp in 0..3 {
        let row1 = &c1[comp * 5..(comp + 1) * 5];
        let row2 = &c2[comp * 5..(comp + 1) * 5];
        let dot: f32 = row1.iter().zip(row2.iter()).map(|(a, b)| a * b).sum();
        // Dot should be ~1.0 (or ~-1.0 if sign flip)
        assert!(
            dot.abs() > 0.99,
            "Component {comp} dot = {dot}, expected ±1"
        );
    }

    // Variance should be exactly the same
    for i in 0..3 {
        let v1 = pca1.explained_variance()[i];
        let v2 = pca2.explained_variance()[i];
        assert!(
            (v1 - v2).abs() < 1e-6,
            "Variance mismatch at {i}: {v1} vs {v2}"
        );
    }
}

#[test]
fn pca_n_less_than_d() {
    // Test the transpose trick path (N < D)
    let mut ctx = get_context();
    let n = 20;
    let d = 50;
    let k = 5;
    let data = generate_data(n, d, 33);

    let mut pca = PCA::new(PCAConfig { n_components: k });
    pca.fit(&mut ctx, &data, n, d).unwrap();

    assert_eq!(pca.components().len(), k * d);
    assert_eq!(pca.explained_variance().len(), k);

    // Components should be orthonormal
    let comps = pca.components();
    for i in 0..k {
        let row = &comps[i * d..(i + 1) * d];
        let norm: f32 = row.iter().map(|x| x * x).sum();
        assert!(
            (norm - 1.0).abs() < 1e-4,
            "Component {i} norm = {norm}"
        );
    }
}

#[test]
fn pca_single_component() {
    let mut ctx = get_context();
    let data = generate_data(50, 7, 55);

    let mut pca = PCA::new(PCAConfig { n_components: 1 });
    pca.fit(&mut ctx, &data, 50, 7).unwrap();

    assert_eq!(pca.components().len(), 1 * 7);
    assert_eq!(pca.explained_variance().len(), 1);
    assert_eq!(pca.explained_variance_ratio().len(), 1);

    // Transform should produce (N, 1)
    let transformed = pca.transform(&mut ctx, &data, 50, 7).unwrap();
    assert_eq!(transformed.len(), 50);
}

#[test]
fn pca_transform_output_shape() {
    let mut ctx = get_context();
    let data = generate_data(30, 10, 11);

    let mut pca = PCA::new(PCAConfig { n_components: 4 });
    pca.fit(&mut ctx, &data, 30, 10).unwrap();

    let transformed = pca.transform(&mut ctx, &data, 30, 10).unwrap();
    assert_eq!(transformed.len(), 30 * 4);

    // Fit-transform should give same result
    let mut pca2 = PCA::new(PCAConfig { n_components: 4 });
    let transformed2 = pca2.fit_transform(&mut ctx, &data, 30, 10).unwrap();
    assert_eq!(transformed2.len(), 30 * 4);

    // Results should match
    for i in 0..transformed.len() {
        assert!(
            (transformed[i] - transformed2[i]).abs() < 1e-5,
            "Difference at {i}"
        );
    }
}

#[test]
fn pca_high_dim_low_samples() {
    // N < D with high dimensionality
    let mut ctx = get_context();
    let n = 30;
    let d = 100;
    let k = 10;
    let data = generate_data(n, d, 2024);

    let mut pca = PCA::new(PCAConfig { n_components: k });
    pca.fit(&mut ctx, &data, n, d).unwrap();

    assert_eq!(pca.components().len(), k * d);
    assert_eq!(pca.explained_variance().len(), k);

    // Orthonormality
    let comps = pca.components();
    for i in 0..k {
        let norm: f32 = comps[i * d..(i + 1) * d].iter().map(|x| x * x).sum();
        assert!((norm - 1.0).abs() < 1e-3, "Component {i} norm = {norm}");
    }
}

#[test]
fn pca_variance_ratio_descending() {
    let mut ctx = get_context();
    let data = generate_data(200, 8, 999);

    let mut pca = PCA::new(PCAConfig { n_components: 5 });
    pca.fit(&mut ctx, &data, 200, 8).unwrap();

    // Explained variance should be strictly decreasing
    for i in 1..5 {
        assert!(
            pca.explained_variance()[i - 1] >= pca.explained_variance()[i] - 1e-6,
            "Variance not descending at {i}"
        );
        assert!(
            pca.explained_variance_ratio()[i - 1] >= pca.explained_variance_ratio()[i] - 1e-6,
            "Ratio not descending at {i}"
        );
    }
}

#[test]
fn pca_fit_transform_on_subset() {
    // Test that fit on subset and transform on full works
    let mut ctx = get_context();
    let data = generate_data(100, 6, 42);

    // Fit on first 60 samples
    let mut pca = PCA::new(PCAConfig { n_components: 2 });
    pca.fit(&mut ctx, &data[..60 * 6], 60, 6).unwrap();

    // Transform all 100 samples
    let transformed = pca.transform(&mut ctx, &data, 100, 6).unwrap();
    assert_eq!(transformed.len(), 100 * 2);
}

#[test]
fn pca_against_known_data() {
    // Test with a simple known dataset: 3 points in 2D
    // After centering, the principal component should align with the direction of max variance
    let mut ctx = get_context();
    let n = 10;
    let d = 2;
    // Data: points roughly along line y = 2x
    let data: Vec<f32> = (0..n)
        .flat_map(|i| {
            let x = i as f32 - 4.5; // centered around 0
            vec![x, x * 2.0 + ((i as f32) * 0.1)]
        })
        .collect();

    let mut pca = PCA::new(PCAConfig { n_components: 1 });
    pca.fit(&mut ctx, &data, n, d).unwrap();

    // First component should roughly be in direction (1, 2) / sqrt(5)
    let c = &pca.components()[0..2];
    let expected = 1.0 / (5.0f32).sqrt();
    // Allow sign ambiguity
    let dot = c[0] * expected + c[1] * (2.0 * expected);
    assert!(
        dot.abs() > 0.9,
        "Component [{:.4}, {:.4}] should align with (1, 2), dot = {:.4}",
        c[0],
        c[1],
        dot
    );
}

// ── helpers ────────────────────────────────────────────────────

fn generate_data(n: usize, d: usize, seed: u64) -> Vec<f32> {
    let mut rng = Rng::with_seed(seed);
    let mut data = Vec::with_capacity(n * d);
    for _ in 0..n {
        for _ in 0..d {
            data.push(rng.f32() * 10.0 - 5.0);
        }
    }
    data
}
