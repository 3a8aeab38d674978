use rtorch::device::Device;
use rtorch::error::RtorchError;
use rtorch::text::path_list_contains;
use rtorch::formula::{choose_entry, is_dll, is_dll_extension, produced_len, Entry};

#[test]
fn every_error_exits_one_with_its_tag() {
    let cases = vec![
        (RtorchError::compile("c"), "compile"),
        (RtorchError::load("l"), "load"),
        (RtorchError::vulkan("v"), "vulkan"),
        (RtorchError::kernel("k"), "kernel"),
        (RtorchError::tensor("t"), "tensor"),
        (RtorchError::shape("s"), "shape"),
        (RtorchError::dtype("d"), "dtype"),
        (RtorchError::model("m"), "model"),
        (RtorchError::rtw("r"), "rtw"),
        (RtorchError::whitelist("w"), "whitelist"),
        (RtorchError::io("i"), "io"),
    ];
    for (e, tag) in cases {
        assert_eq!(e.exit_code(), 1);
        assert_eq!(e.tag(), tag);
        assert_eq!(e.message().len(), 1);
    }
    assert_eq!(RtorchError::io(String::from("missing file")).message(), "missing file");
    assert_eq!(RtorchError::compile("x").message(), "x");
    assert_eq!(RtorchError::compile("x").tag(), "compile");
    assert!(matches!(RtorchError::shape("x"), RtorchError::ShapeError(m) if m == "x"));
}

#[test]
fn device_names_and_cli_values() {
    assert_eq!(Device::Cpu.name(), "cpu");
    assert_eq!(Device::Gpu.name(), "gpu");
    assert_eq!(Device::from_cli("cpu"), Some(Device::Cpu));
    assert_eq!(Device::from_cli("GPU"), Some(Device::Gpu));
    assert_eq!(Device::from_cli("Gpu"), Some(Device::Gpu));
    for d in [Device::Cpu, Device::Gpu] {
        assert_eq!(Device::from_cli(d.name()), Some(d));
        assert_eq!(Device::from_cli(&d.name().to_ascii_uppercase()), Some(d));
    }
    assert_eq!(Device::from_cli("tpu"), None);
    assert_eq!(Device::from_cli(""), None);
    assert_eq!(Device::from_cli("gpu "), None);
}

#[test]
fn dll_extension_is_case_insensitive() {
    assert!(is_dll_extension(Some("dll")));
    assert!(is_dll_extension(Some("DLL")));
    assert!(is_dll_extension(Some("Dll")));
    assert!(!is_dll_extension(Some("so")));
    assert!(!is_dll_extension(Some("dl")));
    assert!(!is_dll_extension(None));
    assert!(is_dll("C:/formulas/f.DLL"));
    assert!(is_dll("f.dll"));
    assert!(is_dll("build/f.dll"));
    assert!(is_dll("/opt/formulas/delta.DLL"));
    assert!(!is_dll("build/f.cpp"));
    assert!(!is_dll("f.cpp"));
    assert!(!is_dll("dll"));
    assert!(!is_dll(".dll"));
}

#[test]
fn formula_entry_point_choice() {
    assert_eq!(choose_entry(1, true, true, true, true), Entry::Gpu);
    assert_eq!(choose_entry(0, true, true, true, true), Entry::Protocol);
    assert_eq!(choose_entry(-1, true, true, true, false), Entry::Protocol);
    assert_eq!(choose_entry(1, false, true, true, false), Entry::Protocol);
    assert_eq!(choose_entry(1, false, true, false, true), Entry::Legacy);
    assert_eq!(choose_entry(0, true, false, true, false), Entry::Missing);
    assert_eq!(choose_entry(0, false, false, false, false), Entry::Missing);
}

#[test]
fn reported_output_is_bounded_by_the_buffer() {
    assert_eq!(produced_len(3, 16), 3);
    assert_eq!(produced_len(16, 16), 16);
    assert_eq!(produced_len(usize::MAX, 16), 16);
    assert_eq!(produced_len(0, 0), 0);
}

#[test]
fn search_path_entries_compare_ignoring_case() {
    let path = "C:\\Windows;C:\\msys64\\ucrt64\\bin;D:\\tools";
    assert!(path_list_contains(path, "C:\\msys64\\UCRT64\\bin"));
    assert!(path_list_contains(path, "c:\\windows"));
    assert!(path_list_contains(path, "D:\\tools"));
    assert!(!path_list_contains(path, "C:\\msys64"));
    assert!(!path_list_contains(path, "C:\\Windows;C:\\msys64\\ucrt64\\bin"));
    assert!(path_list_contains("", ""));
    assert!(path_list_contains("a;;b", ""));
    assert!(!path_list_contains("a;b", ""));
    assert!(!path_list_contains("", "a"));
}
