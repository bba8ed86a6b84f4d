use wasmprofiler::ProfileEntries;
use wasmprofiler::ProfileEntry;
use wasmprofiler::Profiler;
use wasmprofiler::profile::ProfileError;

#[test]
fn lib_import_from_vec() {
    let entries: ProfileEntries = vec![
        ProfileEntry { func_index: 0, duration: 1234 },
        ProfileEntry { func_index: 1, duration: 555 },
    ];
    let profile = Profiler::import_profile(entries);
    assert_eq!(profile.profile.len(), 2);
    assert_eq!(
        profile.render(),
        "Total time taken 1789us\nFunction <index:0> took 1234us (68%)\nFunction <index:1> took 555us (31%)\n"
    );
}

#[test]
fn main_import_from_vec() {
    let entries: ProfileEntries = vec![
        ProfileEntry { func_index: 0, duration: 1234 },
        ProfileEntry { func_index: 1, duration: 555 },
    ];
    let profile = Profiler::import_profile(entries);
    assert_eq!(profile.profile.len(), 2);
    assert_eq!(
        profile.render(),
        "Total time taken 1789us\nFunction <index:0> took 1234us (68%)\nFunction <index:1> took 555us (31%)\n"
    );
}

#[test]
fn import_wasm() {
    let mut profile = Profiler::import_profile(vec![]);
    let module = parity_wasm::elements::Module::default();
    let module = module.into_bytes().expect("wasm serialization to work");
    profile
        .load_module_from_bytes(&module)
        .expect("wasm loading to work");
    assert_eq!(profile.profile.len(), 0);
    assert_eq!(profile.render(), "Total time taken 0us\n");
}

#[test]
fn duplicate_keys_are_summed() {
    let entries: ProfileEntries = vec![
        ProfileEntry { func_index: 0, duration: 1000 },
        ProfileEntry { func_index: 0, duration: 234 },
    ];
    let profile = Profiler::import_profile(entries);
    assert_eq!(profile.profile.len(), 1);
    assert_eq!(
        profile.render(),
        "Total time taken 1234us\nFunction <index:0> took 1234us (100%)\n"
    );
}

#[test]
fn order_of_samples_is_irrelevant() {
    let forward: ProfileEntries = vec![
        ProfileEntry { func_index: 0, duration: 10 },
        ProfileEntry { func_index: 1, duration: 20 },
        ProfileEntry { func_index: 0, duration: 5 },
    ];
    let backward: ProfileEntries = vec![
        ProfileEntry { func_index: 0, duration: 5 },
        ProfileEntry { func_index: 1, duration: 20 },
        ProfileEntry { func_index: 0, duration: 10 },
    ];
    let a = Profiler::import_profile(forward);
    let b = Profiler::import_profile(backward);
    assert_eq!(a.render(), b.render());
}

#[test]
fn second_registration_wins() {
    let mut profile = Profiler::import_profile(vec![ProfileEntry { func_index: 0, duration: 10 }]);
    profile.register_function_names(vec![(0, "alpha".to_string())]);
    profile.register_function_names(vec![(0, "beta".to_string())]);
    assert_eq!(
        profile.render(),
        "Total time taken 10us\nFunction beta took 10us (100%)\n"
    );
}

#[test]
fn unknown_indices_use_placeholder() {
    let mut profile = Profiler::import_profile(vec![
        ProfileEntry { func_index: 3, duration: 60 },
        ProfileEntry { func_index: 7, duration: 40 },
    ]);
    profile.register_function_names(vec![(3, "known".to_string())]);
    assert_eq!(
        profile.render(),
        "Total time taken 100us\nFunction known took 60us (60%)\nFunction <index:7> took 40us (40%)\n"
    );
}

#[test]
fn equal_durations_order_by_index() {
    let profile = Profiler::import_profile(vec![
        ProfileEntry { func_index: 2, duration: 1 },
        ProfileEntry { func_index: 0, duration: 1 },
        ProfileEntry { func_index: 1, duration: 1 },
    ]);
    assert_eq!(
        profile.render(),
        "Total time taken 3us\nFunction <index:0> took 1us (33%)\nFunction <index:1> took 1us (33%)\nFunction <index:2> took 1us (33%)\n"
    );
}

#[test]
fn empty_profile_prints_only_total() {
    let profile = Profiler::import_profile(vec![]);
    assert_eq!(profile.render(), "Total time taken 0us\n");
}

#[test]
fn load_module_rejects_garbage() {
    let mut profile = Profiler::import_profile(vec![]);
    let r = profile.load_module_from_bytes(b"not a wasm module");
    assert_eq!(r, Err(ProfileError::ModuleDecode));
}

#[test]
fn load_module_reads_name_section() {
    // One function, and a custom "name" section declaring its name.
    let mut module = parity_wasm::builder::module()
        .function()
        .signature()
        .build()
        .body()
        .build()
        .build()
        .build();
    // Function-names subsection: id 1, 8 payload bytes: one entry,
    // index 0, a 5-byte name.
    let payload = vec![0x01u8, 0x08, 0x01, 0x00, 0x05, b'a', b'l', b'p', b'h', b'a'];
    module.sections_mut().push(parity_wasm::elements::Section::Custom(
        parity_wasm::elements::CustomSection::new("name".to_string(), payload),
    ));
    let bytes = module.into_bytes().expect("wasm serialization to work");
    let mut profile = Profiler::import_profile(vec![ProfileEntry { func_index: 0, duration: 9 }]);
    profile
        .load_module_from_bytes(&bytes)
        .expect("wasm loading to work");
    assert_eq!(
        profile.render(),
        "Total time taken 9us\nFunction alpha took 9us (100%)\n"
    );
}

#[test]
fn module_load_keeps_profile() {
    let mut profile = Profiler::import_profile(vec![ProfileEntry { func_index: 1, duration: 5 }]);
    let module = parity_wasm::elements::Module::default();
    let bytes = module.into_bytes().expect("wasm serialization to work");
    profile
        .load_module_from_bytes(&bytes)
        .expect("wasm loading to work");
    assert_eq!(profile.profile.len(), 1);
    assert_eq!(
        profile.render(),
        "Total time taken 5us\nFunction <index:1> took 5us (100%)\n"
    );
}

#[test]
fn malformed_name_section_is_rejected() {
    let mut module = parity_wasm::elements::Module::default();
    // A custom "name" section whose function-names subsection claims
    // more bytes than exist.
    module.sections_mut().push(parity_wasm::elements::Section::Custom(
        parity_wasm::elements::CustomSection::new("name".to_string(), vec![0x01, 0xff]),
    ));
    let bytes = module.into_bytes().expect("wasm serialization to work");
    let mut profile = Profiler::import_profile(vec![]);
    let r = profile.load_module_from_bytes(&bytes);
    assert_eq!(r, Err(ProfileError::NameSection));
    assert_eq!(profile.render(), "Total time taken 0us\n");
}
