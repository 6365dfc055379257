//! Nearest neighbours, with the kernels run on the host.
#![allow(dead_code)]

use anyhow::{Error, Result};
use metal_operators::float::Float32;
use metal_operators::metal::{Argument, Buffer, CompileOutcome, Kernel, Launch, MetalContext, MetalError};
use metal_operators::pipeline::{PipelineCache, PipelineError};
use metal_operators::knn as lib;

/// What carries out the work: a device that holds buffers and runs kernels.
trait Device {
    /// Opens a place for the buffers of a piece of work. Those of the work before are
    /// forgotten, unless they are kept.
    fn begin(&mut self) -> usize;
    /// Goes on with the buffers of an earlier piece of work.
    fn resume(&mut self, session: usize);
    /// Keeps the buffers of a piece of work for later.
    fn keep(&mut self, session: usize);
    /// Asks for the pipeline of a kernel.
    fn compile(&mut self, kernel: Kernel) -> CompileOutcome;
    /// What the device said of the last request that failed.
    fn detail(&self) -> String;
    /// Makes a buffer that holds `words`, or fills one that is there.
    fn upload(&mut self, buffer: Buffer, words: &[u32]);
    /// Makes a buffer whose contents nothing has set.
    fn allocate(&mut self, buffer: Buffer);
    /// Runs a kernel and waits for it.
    fn run(&mut self, pipeline: usize, launch: &Launch);
    /// Reads from the start of a buffer.
    fn download(&self, buffer: Buffer, words: usize) -> Vec<u32>;
}

/// The bits of numbers, of which there are no more than buffers can be measured for.
fn bits(values: &[f32]) -> Vec<Float32> {
    check_size(values.len(), 64);
    values.iter().map(|v| bit(*v)).collect()
}

/// The bits of a number.
fn bit(value: f32) -> Float32 {
    Float32 { bits: value.to_bits() }
}

/// The numbers that bits stand for.
fn to_floats(values: &[Float32]) -> Vec<f32> {
    values.iter().map(|v| to_float(*v)).collect()
}

/// The number that bits stand for.
fn to_float(value: Float32) -> f32 {
    f32::from_bits(value.bits)
}

/// An error with this message.
fn error<T>(message: String) -> Result<T> {
    Err(Error::msg(message))
}

fn compilation(kind: MetalError, detail: String) -> Error {
    Error::msg(match kind {
        MetalError::NoDevice => "No Metal device found".to_string(),
        MetalError::ShaderCompilation => format!("Shader compilation failed: {}", detail),
        MetalError::FunctionNotFound(kernel) => {
            format!("Function '{}' not found: {}", kernel.name(), detail)
        }
        MetalError::PipelineCreation => format!("Pipeline creation failed: {}", detail),
    })
}

/// A piece of work that can be gone on with.
struct Suspended {
    ctx: MetalContext,
    session: usize,
}

/// One piece of work: the ledger of its buffers and the device that holds them.
struct Work<'a, D: Device> {
    pub ctx: MetalContext,
    session: usize,
    device: &'a mut D,
}

impl<'a, D: Device> Work<'a, D> {
    fn new(device: &'a mut D) -> Result<Self> {
        let session = device.begin();
        match MetalContext::new(true) {
            Ok(ctx) => Ok(Work { ctx, session, device }),
            Err(e) => Err(compilation(e, String::new())),
        }
    }

    fn resume(device: &'a mut D, suspended: Suspended) -> Self {
        device.resume(suspended.session);
        Work { ctx: suspended.ctx, session: suspended.session, device }
    }

    fn suspend(self) -> Suspended {
        self.device.keep(self.session);
        Suspended { ctx: self.ctx, session: self.session }
    }

    /// Fills a buffer with numbers.
    fn put(&mut self, buffer: Buffer, values: &[f32]) {
        let words: Vec<u32> = values.iter().map(|v| v.to_bits()).collect();
        self.put_words(buffer, &words);
    }

    /// Fills a buffer with words.
    fn put_words(&mut self, buffer: Buffer, words: &[u32]) {
        assert!(self.ctx.write_buffer(&buffer, words.len()));
        self.device.upload(buffer, words);
    }

    /// Makes a buffer whose contents nothing has set.
    fn make(&mut self, buffer: Buffer) {
        self.device.allocate(buffer);
    }

    /// Reads numbers from a buffer.
    fn take(&self, buffer: Buffer, count: usize) -> Vec<f32> {
        self.take_words(buffer, count)
            .into_iter()
            .map(f32::from_bits)
            .collect()
    }

    /// Reads words from a buffer.
    fn take_words(&self, buffer: Buffer, count: usize) -> Vec<u32> {
        assert!(self.ctx.read_buffer(&buffer, count));
        self.device.download(buffer, count)
    }

    /// Runs a kernel whose pipeline the model keeps.
    fn run(&mut self, cache: &mut PipelineCache, launch: &Launch) -> Result<()> {
        let pipeline = match cache.cached(launch.kernel) {
            Some(pipeline) => pipeline,
            None => {
                let outcome = self.device.compile(launch.kernel);
                match cache.get(&self.ctx, launch.kernel, outcome) {
                    Ok(pipeline) => pipeline,
                    Err(PipelineError::Unknown(kernel)) => {
                        return error(format!("Unknown pipeline: {}", kernel.name()));
                    }
                    Err(PipelineError::Compilation(e)) => {
                        return Err(compilation(e, self.device.detail()));
                    }
                }
            }
        };
        self.device.run(pipeline, launch);
        Ok(())
    }

    /// Makes the pipeline of a kernel.
    fn compile(&mut self, kernel: Kernel) -> Result<usize> {
        let outcome = self.device.compile(kernel);
        self.ctx
            .compile_kernel(kernel, outcome)
            .map_err(|e| compilation(e, self.device.detail()))
    }

    /// Runs a kernel whose pipeline was made before.
    fn run_compiled(&mut self, pipeline: usize, launch: &Launch) {
        self.device.run(pipeline, launch);
    }

    /// Runs a kernel whose pipeline is made for this time.
    fn run_once(&mut self, launch: &Launch) -> Result<()> {
        let pipeline = self.compile(launch.kernel)?;
        self.run_compiled(pipeline, launch);
        Ok(())
    }
}

/// Fails where a buffer of `rows` times `columns` elements could not be measured in bytes.
fn check_size(rows: usize, columns: usize) {
    let bytes = rows.checked_mul(columns).and_then(|elements| elements.checked_mul(4));
    assert!(
        bytes.and_then(|bytes| bytes.checked_add(1024)).is_some(),
        "attempt to multiply with overflow"
    );
}

/// A device of the host: each kernel is a plain loop.
struct Host {
    memory: Vec<Vec<u32>>,
    kept: Vec<Vec<Vec<u32>>>,
    session: usize,
    detail: String,
}

impl Host {
    fn new() -> Host {
        Host { memory: Vec::new(), kept: Vec::new(), session: 0, detail: String::new() }
    }

    fn buffer(&self, launch: &Launch, i: usize) -> Buffer {
        match launch.arguments[i] {
            Argument::Memory(buffer) => {
                assert_eq!(self.memory[buffer.id].len() as u64 * 4, buffer.byte_len);
                buffer
            }
            _ => panic!("argument {} of {} is no buffer", i, launch.kernel.name()),
        }
    }

    fn words(&self, launch: &Launch, i: usize) -> Vec<u32> {
        self.memory[self.buffer(launch, i).id].clone()
    }

    fn floats(&self, launch: &Launch, i: usize) -> Vec<f32> {
        self.words(launch, i).into_iter().map(f32::from_bits).collect()
    }

    fn word(&self, launch: &Launch, i: usize) -> usize {
        match launch.arguments[i] {
            Argument::Word(word) => word as usize,
            _ => panic!("argument {} of {} is no word", i, launch.kernel.name()),
        }
    }

    fn number(&self, launch: &Launch, i: usize) -> f32 {
        match launch.arguments[i] {
            Argument::Real(value) => to_float(value),
            _ => panic!("argument {} of {} is no number", i, launch.kernel.name()),
        }
    }

    fn store_words(&mut self, launch: &Launch, i: usize, words: &[u32]) {
        let id = self.buffer(launch, i).id;
        self.memory[id][..words.len()].copy_from_slice(words);
    }

    fn store(&mut self, launch: &Launch, i: usize, values: &[f32]) {
        let words: Vec<u32> = values.iter().map(|v| v.to_bits()).collect();
        self.store_words(launch, i, &words);
    }
}

impl Device for Host {
    fn begin(&mut self) -> usize {
        self.memory.clear();
        self.session = self.kept.len();
        self.session
    }

    fn resume(&mut self, session: usize) {
        self.memory = self.kept[session].clone();
        self.session = session;
    }

    fn keep(&mut self, session: usize) {
        assert_eq!(session, self.session);
        if session == self.kept.len() {
            self.kept.push(Vec::new());
        }
        self.kept[session] = self.memory.clone();
    }

    fn compile(&mut self, _kernel: Kernel) -> CompileOutcome {
        CompileOutcome::Compiled(0)
    }

    fn detail(&self) -> String {
        self.detail.clone()
    }

    fn upload(&mut self, buffer: Buffer, words: &[u32]) {
        self.allocate(buffer);
        self.memory[buffer.id][..words.len()].copy_from_slice(words);
    }

    fn allocate(&mut self, buffer: Buffer) {
        while self.memory.len() <= buffer.id {
            self.memory.push(Vec::new());
        }
        self.memory[buffer.id] = vec![0xffff_ffff; buffer.byte_len as usize / 4];
    }

    fn run(&mut self, _pipeline: usize, launch: &Launch) {
        assert!(launch.groups.width > 0 || launch.groups.height > 0);
        assert!(launch.threadgroup_bytes <= 32768);
        self.execute(launch);
    }

    fn download(&self, buffer: Buffer, words: usize) -> Vec<u32> {
        self.memory[buffer.id][..words].to_vec()
    }
}

impl Host {
    fn execute(&mut self, launch: &Launch) {
        match launch.kernel {
            Kernel::KnnAssignDense | Kernel::KnnAssignSplitm | Kernel::KnnAssignNaive => {}
            _ => panic!("{} is no kernel of this model", launch.kernel.name()),
        }
        let queries = self.floats(launch, 0);
        let corpus = self.floats(launch, 1);
        let norms = self.floats(launch, 5);
        let (nq, nc) = (self.word(launch, 6), self.word(launch, 7));
        let (d, k) = (self.word(launch, 8), self.word(launch, 9));
        if launch.kernel != Kernel::KnnAssignDense {
            assert_eq!(self.word(launch, 10), 1);
            assert_eq!(self.word(launch, 11), nc);
        }
        let mut scores = Vec::new();
        let mut places = Vec::new();
        for q in 0..nq {
            let mut found: Vec<(f32, u32)> = (0..nc)
                .map(|c| {
                    let dot: f64 = (0..d)
                        .map(|e| queries[q * d + e] as f64 * corpus[c * d + e] as f64)
                        .sum();
                    ((norms[c] as f64 - 2.0 * dot) as f32, c as u32)
                })
                .collect();
            found.sort_by(|a, b| a.0.partial_cmp(&b.0).unwrap());
            found.resize(found.len().max(k), (0.0, u32::MAX));
            for j in 0..k {
                scores.push(found[j].0);
                places.push(found[j].1);
            }
        }
        self.store(launch, 2, &scores);
        self.store_words(launch, 3, &places);
    }
}

struct KNNConfig {
    pub k: usize,
}

/// Nearest neighbours by brute force.
struct KNN {
    model: lib::KNN,
    pipeline: usize,
    session: Option<Suspended>,
}

fn refused(e: lib::KNNError) -> Error {
    Error::msg(match e {
        lib::KNNError::InvalidParameters { n, d } => {
            format!("Invalid parameters: n={}, d={}", n, d)
        }
        lib::KNNError::DataLength { n, d, got } => {
            format!("Data length mismatch: expected {}, got {}", n * d, got)
        }
        lib::KNNError::NotFitted => "KNN has not been fitted".to_string(),
        lib::KNNError::QueryLength => "Query length mismatch".to_string(),
    })
}

fn compute_norms(data: &[f32], n: usize, d: usize) -> Vec<f32> {
    (0..n)
        .map(|i| data[i * d..(i + 1) * d].iter().map(|x| x * x).sum::<f32>())
        .collect()
}

impl KNN {
    fn new(config: KNNConfig) -> Self {
        KNN {
            model: lib::KNN::new(lib::KNNConfig { k: config.k }),
            pipeline: 0,
            session: None,
        }
    }

    fn fit<D: Device>(&mut self, device: &mut D, data: &[f32], n: usize, d: usize) -> Result<()> {
        let values = bits(data);
        lib::KNN::check_fit(&values, n, d).map_err(refused)?;
        let norms = compute_norms(data, n, d);
        let mut work = match self.session.take() {
            Some(session) => Work::resume(device, session),
            None => Work::new(device)?,
        };
        let kernel = self
            .model
            .fit(&mut work.ctx, &values, bits(&norms), n, d)
            .map_err(refused)?;
        if let (Some(corpus), Some(norms_c)) = (self.model.corpus_buf, self.model.norms_c_buf) {
            work.put(corpus, data);
            work.put(norms_c, &norms);
        }
        self.pipeline = work.compile(kernel)?;
        work.compile(Kernel::KnnGatherL2)?;
        self.session = Some(work.suspend());
        Ok(())
    }

    fn kneighbors<D: Device>(
        &mut self,
        device: &mut D,
        queries: &[f32],
        nq: usize,
    ) -> Result<(Vec<f32>, Vec<u32>)> {
        let values = bits(queries);
        self.model.check_search(&values, nq).map_err(refused)?;
        check_size(nq, self.model.config.k);
        check_size(64, self.model.d.saturating_add(self.model.config.k));
        let norms_q = compute_norms(queries, nq, self.model.d);
        let session = match self.session.take() {
            Some(session) => session,
            None => return error("KNN has not been fitted".to_string()),
        };
        let mut work = Work::resume(device, session);
        let before = self.model.scratch;
        let pass = self
            .model
            .kneighbors(&mut work.ctx, &values, nq)
            .map_err(refused)?;
        work.put(pass.buffers.query, queries);
        work.put(pass.buffers.norms_q, &norms_q);
        if before.out_score != Some(pass.buffers.out_score) {
            work.make(pass.buffers.out_score);
        }
        if before.out_idx != Some(pass.buffers.out_idx) {
            work.make(pass.buffers.out_idx);
        }
        work.run_compiled(self.pipeline, &pass.launch);
        let k = self.model.config.k;
        let scores = work.take(pass.buffers.out_score, nq * k);
        let indices = work.take_words(pass.buffers.out_idx, nq * k);
        let distances: Vec<f32> = (0..nq * k).map(|i| norms_q[i / k] + scores[i]).collect();
        self.session = Some(work.suspend());
        let (found, places) = self.model.clean(&indices, &bits(&distances));
        Ok((to_floats(&found), places))
    }
}


fn cpu_knn(
    corpus: &[f32], nc: usize, d: usize,
    queries: &[f32], nq: usize, k: usize,
) -> (Vec<f32>, Vec<u32>) {
    let mut distances = vec![0.0f32; nq * k];
    let mut indices = vec![0u32; nq * k];

    for q in 0..nq {
        // Brute-force all distances
        let mut pairs: Vec<(f32, u32)> = (0..nc as u32)
            .map(|c| {
                let mut dist = 0.0;
                for dim in 0..d {
                    let diff = queries[q * d + dim] - corpus[c as usize * d + dim];
                    dist += diff * diff;
                }
                (dist, c)
            })
            .collect();
        pairs.sort_by(|a, b| a.0.partial_cmp(&b.0).unwrap());
        for j in 0..k {
            distances[q * k + j] = pairs[j].0;
            indices[q * k + j] = pairs[j].1;
        }
    }
    (distances, indices)
}

fn make_data(n: usize, d: usize, seed: u64) -> Vec<f32> {
    let mut rng = fastrand::Rng::with_seed(seed);
    (0..n * d).map(|_| rng.f32() * 10.0).collect()
}

#[test]
fn test_knn_naive_path() {
    let mut ctx = Host::new();

    let (nc, nq, d, k) = (100, 20, 3, 3);
    let corpus = make_data(nc, d, 1);
    let queries = make_data(nq, d, 2);

    let mut knn = KNN::new(KNNConfig { k });
    knn.fit(&mut ctx, &corpus, nc, d).expect("fit");
    let (gpu_d, gpu_i) = knn.kneighbors(&mut ctx, &queries, nq).expect("kneighbors");

    let (cpu_d, cpu_i) = cpu_knn(&corpus, nc, d, &queries, nq, k);

    for q in 0..nq {
        for j in 0..k {
            assert_eq!(
                gpu_i[q * k + j], cpu_i[q * k + j],
                "Indices differ at q={}, j={}: GPU={}, CPU={}",
                q, j, gpu_i[q * k + j], cpu_i[q * k + j],
            );
            assert!(
                (gpu_d[q * k + j] - cpu_d[q * k + j]).abs() < 1e-3,
                "Distance diff at q={}, j={}: GPU={}, CPU={}",
                q, j, gpu_d[q * k + j], cpu_d[q * k + j],
            );
        }
    }
}

#[test]
fn test_knn_simdgroup_path() {
    let mut ctx = Host::new();

    let (nc, nq, d, k) = (200, 32, 16, 5);
    let corpus = make_data(nc, d, 10);
    let queries = make_data(nq, d, 20);

    let mut knn = KNN::new(KNNConfig { k });
    knn.fit(&mut ctx, &corpus, nc, d).expect("fit");
    let (gpu_d, gpu_i) = knn.kneighbors(&mut ctx, &queries, nq).expect("kneighbors");

    let (cpu_d, cpu_i) = cpu_knn(&corpus, nc, d, &queries, nq, k);

    for q in 0..nq {
        for j in 0..k {
            assert_eq!(
                gpu_i[q * k + j], cpu_i[q * k + j],
                "Indices differ at q={}, j={}", q, j,
            );
            assert!(
                (gpu_d[q * k + j] - cpu_d[q * k + j]).abs() < 1e-3,
                "Distance diff at q={}, j={}", q, j,
            );
        }
    }
}

#[test]
fn test_knn_k10_d32() {
    let mut ctx = Host::new();

    let (nc, nq, d, k) = (500, 50, 32, 10);
    let corpus = make_data(nc, d, 30);
    let queries = make_data(nq, d, 40);

    let mut knn = KNN::new(KNNConfig { k });
    knn.fit(&mut ctx, &corpus, nc, d).expect("fit");
    let (gpu_d, gpu_i) = knn.kneighbors(&mut ctx, &queries, nq).expect("kneighbors");

    let (cpu_d, cpu_i) = cpu_knn(&corpus, nc, d, &queries, nq, k);

    for q in 0..nq {
        for j in 0..k {
            assert_eq!(
                gpu_i[q * k + j], cpu_i[q * k + j],
                "Indices differ at q={}, j={}", q, j,
            );
            assert!(
                (gpu_d[q * k + j] - cpu_d[q * k + j]).abs() < 1e-3,
                "Distance diff at q={}, j={}", q, j,
            );
        }
    }
}

#[test]
fn test_knn_deterministic() {
    let mut ctx = Host::new();

    let (nc, nq, d, k) = (50, 10, 8, 3);
    let corpus = make_data(nc, d, 100);
    let queries = make_data(nq, d, 200);

    let mut knn1 = KNN::new(KNNConfig { k });
    knn1.fit(&mut ctx, &corpus, nc, d).expect("fit");
    let (d1, i1) = knn1.kneighbors(&mut ctx, &queries, nq).expect("kneighbors");

    let mut knn2 = KNN::new(KNNConfig { k });
    knn2.fit(&mut ctx, &corpus, nc, d).expect("fit");
    let (d2, i2) = knn2.kneighbors(&mut ctx, &queries, nq).expect("kneighbors");

    assert_eq!(i1, i2, "Indices differ between runs");
    assert_eq!(d1, d2, "Distances differ between runs");
}

#[test]
fn test_knn_rejects_invalid() {
    let mut ctx = Host::new();
    let mut knn = KNN::new(KNNConfig { k: 5 });

    // zero dims
    assert!(knn.fit(&mut ctx, &[1.0, 2.0], 2, 0).is_err());
    // zero points
    assert!(knn.fit(&mut ctx, &[], 0, 2).is_err());
}

#[test]
fn test_knn_k1() {
    let mut ctx = Host::new();

    let (nc, nq, d, k) = (100, 10, 4, 1);
    let corpus = make_data(nc, d, 50);
    let queries = make_data(nq, d, 60);

    let mut knn = KNN::new(KNNConfig { k });
    knn.fit(&mut ctx, &corpus, nc, d).expect("fit");
    let (_gpu_d, gpu_i) = knn.kneighbors(&mut ctx, &queries, nq).expect("kneighbors");

    let (_cpu_d, cpu_i) = cpu_knn(&corpus, nc, d, &queries, nq, k);
    assert_eq!(gpu_i, cpu_i, "k=1 indices differ");
}

#[test]
fn test_knn_debug_tiny() {
    let mut ctx = Host::new();

    // Tiny: 10 corpus, 2 queries, D=3, K=2 — forces Dense path
    let (nc, nq, d, k) = (10, 2, 3, 2);
    let corpus = make_data(nc, d, 42);
    let queries = make_data(nq, d, 99);

    println!("corpus: {:?}", &corpus[..30]);
    println!("queries: {:?}", &queries[..6]);

    let mut knn = KNN::new(KNNConfig { k });
    knn.fit(&mut ctx, &corpus, nc, d).expect("fit");
    let (gpu_d, gpu_i) = knn.kneighbors(&mut ctx, &queries, nq).expect("kneighbors");

    let (cpu_d, cpu_i) = cpu_knn(&corpus, nc, d, &queries, nq, k);

    println!("GPU dists: {:?}", gpu_d);
    println!("GPU idxs: {:?}", gpu_i);
    println!("CPU dists: {:?}", cpu_d);
    println!("CPU idxs: {:?}", cpu_i);

    for q in 0..nq {
        for j in 0..k {
            assert_eq!(gpu_i[q*k+j], cpu_i[q*k+j], "idx q={} j={}", q, j);
            assert!((gpu_d[q*k+j] - cpu_d[q*k+j]).abs() < 1e-3, "dist q={} j={}", q, j);
        }
    }
}

/// Fewer points than neighbours: the places that stay empty are infinitely far.
#[test]
fn knn_pads_a_small_corpus() {
    let mut ctx = Host::new();
    let mut knn = KNN::new(KNNConfig { k: 3 });
    knn.fit(&mut ctx, &[0.0, 0.0, 3.0, 4.0], 2, 2).expect("fit");
    let (d, i) = knn.kneighbors(&mut ctx, &[0.0, 0.0], 1).expect("kneighbors");
    assert_eq!(d, vec![0.0, 25.0, f32::INFINITY]);
    assert_eq!(i, vec![0, 1, 0]);
}

/// A second, smaller search uses the buffers of the first one.
#[test]
fn knn_reuses_buffers() {
    let mut ctx = Host::new();
    let corpus = make_data(20, 3, 5);
    let mut knn = KNN::new(KNNConfig { k: 2 });
    knn.fit(&mut ctx, &corpus, 20, 3).expect("fit");
    let many = make_data(6, 3, 6);
    let (_, first) = knn.kneighbors(&mut ctx, &many, 6).expect("kneighbors");
    let scratch = knn.model.scratch;
    let (_, second) = knn.kneighbors(&mut ctx, &many[..6], 2).expect("kneighbors");
    assert_eq!(knn.model.scratch, scratch);
    assert_eq!(&first[..4], &second[..]);
    let more = make_data(9, 3, 7);
    knn.kneighbors(&mut ctx, &more, 9).expect("kneighbors");
    assert_ne!(knn.model.scratch, scratch);
}

#[test]
fn knn_errors() {
    let mut ctx = Host::new();
    let mut knn = KNN::new(KNNConfig { k: 2 });
    let before = knn.kneighbors(&mut ctx, &[1.0], 1).unwrap_err();
    assert_eq!(before.to_string(), "KNN has not been fitted");
    let short = knn.fit(&mut ctx, &[1.0, 2.0, 3.0], 2, 2).unwrap_err();
    assert_eq!(short.to_string(), "Data length mismatch: expected 4, got 3");
    let empty = knn.fit(&mut ctx, &[], 0, 2).unwrap_err();
    assert_eq!(empty.to_string(), "Invalid parameters: n=0, d=2");
    knn.fit(&mut ctx, &[1.0, 2.0, 3.0, 4.0], 2, 2).unwrap();
    let query = knn.kneighbors(&mut ctx, &[1.0], 1).unwrap_err();
    assert_eq!(query.to_string(), "Query length mismatch");
}

#[test]
fn knn_variants() {
    assert_eq!(lib::pick_variant(5, 31), lib::KernelVariant::Dense);
    assert_eq!(lib::pick_variant(64, 40), lib::KernelVariant::Splitm);
    assert_eq!(lib::pick_variant(65, 40), lib::KernelVariant::Naive);
    assert_eq!(lib::pick_variant(5, 33), lib::KernelVariant::Naive);
    assert_eq!(lib::KernelVariant::Splitm.kernel(), Kernel::KnnAssignSplitm);
}
