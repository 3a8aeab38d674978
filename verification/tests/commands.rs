use rtorch::cli::{
    command, container_run_args, dump_preview, gpu_requested_but_missing, kernel_source, pack_args,
    pack_container, parse_args, render_kind, resolve_device, rt_release_version, Command, RunRefusal,
};
use rtorch::rtw::{Rtw, DTYPE_BYTES, DTYPE_FP32, KIND_KERNEL, KIND_MEMORY, KIND_MODEL, KIND_RESULT};

fn args(v: &[&str]) -> Vec<String> {
    v.iter().map(|s| s.to_string()).collect()
}

#[test]
fn release_version_and_kinds() {
    assert_eq!(rt_release_version(), "2026.09.06.1");
    assert_eq!(render_kind(KIND_RESULT), "result");
    assert_eq!(render_kind(KIND_KERNEL), "kernel");
    assert_eq!(render_kind(KIND_MODEL), "model");
    assert_eq!(render_kind(KIND_MEMORY), "memory");
    assert_eq!(render_kind(9), "unknown");
}

#[test]
fn command_classification() {
    assert_eq!(command(&args(&["rtorch", "f.cpp", "--version"])), Command::Version);
    assert_eq!(command(&args(&["rtorch", "-V"])), Command::Version);
    assert_eq!(command(&args(&["rtorch", "-h", "--version"])), Command::Version);
    assert_eq!(command(&args(&["rtorch", "--help"])), Command::Help);
    assert_eq!(command(&args(&["rtorch", "--vk-smoke"])), Command::VkSmoke);
    assert_eq!(command(&args(&["rtorch", "--dump", "x.rtw"])), Command::Dump);
    assert_eq!(command(&args(&["rtorch", "--pack", "f.cpp", "-o", "x.rtw"])), Command::Pack);
    assert_eq!(command(&args(&["rtorch", "model.rtw"])), Command::RunContainer);
    assert_eq!(command(&args(&["rtorch", "f.cpp", "with", "a.bin"])), Command::RunFormula);
    assert_eq!(command(&args(&["rtorch"])), Command::RunFormula);
}

#[test]
fn parse_formula_run() {
    let o = parse_args(&args(&[
        "rtorch", "f.cpp", "with", "r1.bin", "r2.bin", "--input", "in.bin", "--output", "o.bin",
        "--device", "GPU",
    ]))
    .unwrap();
    assert_eq!(o.formula, "f.cpp");
    assert_eq!(o.refs, args(&["r1.bin", "r2.bin"]));
    assert_eq!(o.inputs, args(&["in.bin"]));
    assert_eq!(o.output, Some("o.bin".to_string()));
    assert_eq!(o.device, 1);

    let o = parse_args(&args(&["rtorch", "f.dll", "--device", "cpu", "extra"])).unwrap();
    assert_eq!(o.formula, "f.dll");
    assert_eq!(o.refs, args(&["extra"]));
    assert_eq!(o.device, 0);
    assert_eq!(o.output, None);

    // An unknown device value leaves the choice automatic.
    assert_eq!(parse_args(&args(&["rtorch", "f.cpp", "--device", "tpu"])).unwrap().device, -1);
}

#[test]
fn parse_failures() {
    assert!(parse_args(&args(&["rtorch"])).is_none());
    assert!(parse_args(&args(&["rtorch", "f.cpp", "--input"])).is_none());
    assert!(parse_args(&args(&["rtorch", "f.cpp", "--output"])).is_none());
    assert!(parse_args(&args(&["rtorch", "f.cpp", "--device"])).is_none());
    assert!(parse_args(&args(&["rtorch", "with", "a.bin"])).is_none());
}

#[test]
fn device_resolution() {
    assert_eq!(resolve_device(-1, 0), 0);
    assert_eq!(resolve_device(-1, 2), 1);
    assert_eq!(resolve_device(0, 2), 0);
    assert_eq!(resolve_device(1, 0), 1);
    assert!(gpu_requested_but_missing(1, 0));
    assert!(!gpu_requested_but_missing(1, 1));
    assert!(!gpu_requested_but_missing(-1, 0));
}

#[test]
fn pack_arguments() {
    assert_eq!(
        pack_args(&args(&["rtorch", "--pack", "f.cpp", "-o", "x.rtw"])),
        Some(("f.cpp".to_string(), "x.rtw".to_string()))
    );
    assert_eq!(
        pack_args(&args(&["rtorch", "--pack", "-o", "x.rtw", "f.cpp", "g.cpp"])),
        Some(("f.cpp".to_string(), "x.rtw".to_string()))
    );
    assert_eq!(pack_args(&args(&["rtorch", "--pack", "f.cpp"])), None);
    assert_eq!(pack_args(&args(&["rtorch", "--pack", "f.cpp", "-o"])), None);
    assert_eq!(pack_args(&args(&["rtorch", "--pack", "-o", "x.rtw"])), None);
}

#[test]
fn packed_container_runs_its_source() {
    let rtw = pack_container(b"int main(){}".to_vec());
    assert_eq!(rtw.kind, KIND_KERNEL);
    assert_eq!(rtw.dtype, DTYPE_BYTES);
    assert!(rtw.shape.is_empty() && rtw.data.is_empty());
    assert_eq!(kernel_source(&rtw).unwrap(), &b"int main(){}".to_vec());

    let no_src = Rtw { kind: KIND_KERNEL, dtype: DTYPE_BYTES, shape: vec![], data: vec![], kernel: None };
    assert_eq!(kernel_source(&no_src), Err(RunRefusal::NoSource));
    let result = Rtw { kind: KIND_RESULT, dtype: DTYPE_FP32, shape: vec![1], data: vec![0; 4], kernel: None };
    assert_eq!(kernel_source(&result), Err(RunRefusal::NotKernel));
}

#[test]
fn container_run_passes_flags_through() {
    let run = container_run_args(
        &args(&["rtorch", "m.rtw", "--input", "a.bin", "junk", "--device", "gpu", "--output"]),
        "/tmp/src.cpp".to_string(),
    );
    assert_eq!(
        run,
        args(&["rtorch", "/tmp/src.cpp", "--input", "a.bin", "--device", "gpu", "--output"])
    );
    assert_eq!(container_run_args(&args(&["rtorch", "m.rtw"]), "s.cpp".into()), args(&["rtorch", "s.cpp"]));
}

#[test]
fn dump_previews_first_twelve_fp32() {
    let vals: Vec<f32> = (0..20).map(|i| i as f32 * 0.5).collect();
    let mut data = Vec::new();
    for v in &vals {
        data.extend_from_slice(&v.to_le_bytes());
    }
    let rtw = Rtw { kind: KIND_RESULT, dtype: DTYPE_FP32, shape: vec![20], data, kernel: None };
    let p = dump_preview(&rtw);
    assert_eq!(p.len(), 12);
    for (i, w) in p.iter().enumerate() {
        assert_eq!(f32::from_bits(*w), vals[i]);
    }
    let short = Rtw { kind: KIND_RESULT, dtype: DTYPE_FP32, shape: vec![2], data: vec![0, 0, 128, 63, 0, 0, 0, 64, 9], kernel: None };
    let p = dump_preview(&short);
    assert_eq!(p.iter().map(|w| f32::from_bits(*w)).collect::<Vec<_>>(), vec![1.0, 2.0]);
    let model = Rtw { kind: KIND_MODEL, dtype: DTYPE_BYTES, shape: vec![], data: vec![1, 2, 3, 4], kernel: None };
    assert!(dump_preview(&model).is_empty());
}
