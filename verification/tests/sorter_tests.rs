use electrolysis::sorter::sort;

#[test]
fn sorts_files_list() {
    let input = "\t\t\tfiles = (\n\
        \t\t\t\tBBBBBBBBBBBBBBBBBBBBBBBB /* zebra.swift in Sources */,\n\
        \t\t\t\tAAAAAAAAAAAAAAAAAAAAAAAA /* alpha.swift in Sources */,\n\
        \t\t\t);\n";
    let (out, _) = sort(input);
    let pos_alpha = out.find("alpha.swift").unwrap();
    let pos_zebra = out.find("zebra.swift").unwrap();
    assert!(pos_alpha < pos_zebra, "alpha should come before zebra");
}

#[test]
fn removes_duplicate_list_entries() {
    let input = "\t\t\tchildren = (\n\
        \t\t\t\tAAAAAAAAAAAAAAAAAAAAAAAA /* file.swift */,\n\
        \t\t\t\tAAAAAAAAAAAAAAAAAAAAAAAA /* file.swift */,\n\
        \t\t\t);\n";
    let (out, stats) = sort(input);
    assert_eq!(out.matches("AAAAAAAAAAAAAAAAAAAAAAAA").count(), 1);
    assert_eq!(stats.duplicate_entries_removed, 1);
}

#[test]
fn sorts_xc_build_configurations_by_base_config_ref_name() {
    let input = "/* Begin XCBuildConfiguration section */\n\
        \t\tBBBBBBBBBBBBBBBBBBBBBBBB /* Release */ = {\n\
        \t\t\tisa = XCBuildConfiguration;\n\
        \t\t\tbaseConfigurationReference = CCCCCCCCCCCCCCCCCCCCCCCC /* Pods-App.release.xcconfig */;\n\
        \t\t\tname = Release;\n\
        \t\t};\n\
        \t\tAAAAAAAAAAAAAAAAAAAAAAAA /* Debug */ = {\n\
        \t\t\tisa = XCBuildConfiguration;\n\
        \t\t\tbaseConfigurationReference = DDDDDDDDDDDDDDDDDDDDDDDD /* Pods-App.debug.xcconfig */;\n\
        \t\t\tname = Debug;\n\
        \t\t};\n\
        /* End XCBuildConfiguration section */\n";
    let (out, stats) = sort(input);
    let pos_debug = out.find("Pods-App.debug").unwrap();
    let pos_release = out.find("Pods-App.release").unwrap();
    assert!(pos_debug < pos_release, "debug should sort before release");
    assert_eq!(stats.xc_build_configs_sorted, 1);
}

#[test]
fn sorts_xc_build_configurations_no_base_config_ref_by_name() {
    // Entries without baseConfigurationReference fall back to their own comment name.
    let input = "/* Begin XCBuildConfiguration section */\n\
        \t\tBBBBBBBBBBBBBBBBBBBBBBBB /* Release */ = {\n\
        \t\t\tisa = XCBuildConfiguration;\n\
        \t\t\tname = Release;\n\
        \t\t};\n\
        \t\tAAAAAAAAAAAAAAAAAAAAAAAA /* Debug */ = {\n\
        \t\t\tisa = XCBuildConfiguration;\n\
        \t\t\tname = Debug;\n\
        \t\t};\n\
        /* End XCBuildConfiguration section */\n";
    let (out, _) = sort(input);
    let pos_debug = out.find("/* Debug */").unwrap();
    let pos_release = out.find("/* Release */").unwrap();
    assert!(pos_debug < pos_release, "Debug should sort before Release");
}

#[test]
fn sorts_pbx_variant_groups_alphabetically() {
    let input = "/* Begin PBXVariantGroup section */\n\
        \t\tBBBBBBBBBBBBBBBBBBBBBBBB /* Zebra.strings */ = {\n\
        \t\t\tisa = PBXVariantGroup;\n\
        \t\t\tname = Zebra;\n\
        \t\t};\n\
        \t\tAAAAAAAAAAAAAAAAAAAAAAAA /* Alpha.strings */ = {\n\
        \t\t\tisa = PBXVariantGroup;\n\
        \t\t\tname = Alpha;\n\
        \t\t};\n\
        /* End PBXVariantGroup section */\n";
    let (out, stats) = sort(input);
    let pos_alpha = out.find("Alpha.strings").unwrap();
    let pos_zebra = out.find("Zebra.strings").unwrap();
    assert!(pos_alpha < pos_zebra, "Alpha should sort before Zebra");
    assert_eq!(stats.pbx_variant_groups_sorted, 1);
}

#[test]
fn sorts_xc_configuration_lists_by_quoted_target_name() {
    let input = "/* Begin XCConfigurationList section */\n\
        \t\tBBBBBBBBBBBBBBBBBBBBBBBB /* Build configuration list for PBXNativeTarget \"zebra\" */ = {\n\
        \t\t\tisa = XCConfigurationList;\n\
        \t\t\tdefaultConfigurationName = Release;\n\
        \t\t};\n\
        \t\tAAAAAAAAAAAAAAAAAAAAAAAA /* Build configuration list for PBXNativeTarget \"alpha\" */ = {\n\
        \t\t\tisa = XCConfigurationList;\n\
        \t\t\tdefaultConfigurationName = Release;\n\
        \t\t};\n\
        /* End XCConfigurationList section */\n";
    let (out, stats) = sort(input);
    let pos_alpha = out.find("\"alpha\"").unwrap();
    let pos_zebra = out.find("\"zebra\"").unwrap();
    assert!(pos_alpha < pos_zebra, "alpha should sort before zebra");
    assert_eq!(stats.xc_config_lists_sorted, 1);
}

#[test]
fn sorts_pbx_native_targets_alphabetically() {
    let input = "/* Begin PBXNativeTarget section */\n\
        \t\tBBBBBBBBBBBBBBBBBBBBBBBB /* ZebraApp */ = {\n\
        \t\t\tisa = PBXNativeTarget;\n\
        \t\t\tname = ZebraApp;\n\
        \t\t};\n\
        \t\tAAAAAAAAAAAAAAAAAAAAAAAA /* AlphaApp */ = {\n\
        \t\t\tisa = PBXNativeTarget;\n\
        \t\t\tname = AlphaApp;\n\
        \t\t};\n\
        /* End PBXNativeTarget section */\n";
    let (out, stats) = sort(input);
    let pos_alpha = out.find("AlphaApp").unwrap();
    let pos_zebra = out.find("ZebraApp").unwrap();
    assert!(pos_alpha < pos_zebra, "AlphaApp should sort before ZebraApp");
    assert_eq!(stats.pbx_native_targets_sorted, 1);
}

#[test]
fn sorts_pbx_aggregate_targets_alphabetically() {
    let input = "/* Begin PBXAggregateTarget section */\n\
        \t\tBBBBBBBBBBBBBBBBBBBBBBBB /* ZebraFramework */ = {\n\
        \t\t\tisa = PBXAggregateTarget;\n\
        \t\t\tname = ZebraFramework;\n\
        \t\t};\n\
        \t\tAAAAAAAAAAAAAAAAAAAAAAAA /* AlphaFramework */ = {\n\
        \t\t\tisa = PBXAggregateTarget;\n\
        \t\t\tname = AlphaFramework;\n\
        \t\t};\n\
        /* End PBXAggregateTarget section */\n";
    let (out, stats) = sort(input);
    let pos_alpha = out.find("AlphaFramework").unwrap();
    let pos_zebra = out.find("ZebraFramework").unwrap();
    assert!(pos_alpha < pos_zebra, "AlphaFramework should sort before ZebraFramework");
    assert_eq!(stats.pbx_aggregate_targets_sorted, 1);
}

#[test]
fn sorts_pbx_groups_alphabetically() {
    let input = "/* Begin PBXGroup section */\n\
        \t\tBBBBBBBBBBBBBBBBBBBBBBBB /* ZebraGroup */ = {\n\
        \t\t\tisa = PBXGroup;\n\
        \t\t\tchildren = (\n\
        \t\t\t);\n\
        \t\t\tname = ZebraGroup;\n\
        \t\t};\n\
        \t\tAAAAAAAAAAAAAAAAAAAAAAAA /* AlphaGroup */ = {\n\
        \t\t\tisa = PBXGroup;\n\
        \t\t\tchildren = (\n\
        \t\t\t);\n\
        \t\t\tname = AlphaGroup;\n\
        \t\t};\n\
        /* End PBXGroup section */\n";
    let (out, stats) = sort(input);
    let pos_alpha = out.find("AlphaGroup").unwrap();
    let pos_zebra = out.find("ZebraGroup").unwrap();
    assert!(pos_alpha < pos_zebra, "AlphaGroup should sort before ZebraGroup");
    assert_eq!(stats.pbx_groups_sorted, 1);
}

#[test]
fn sorts_pbx_target_dependencies_by_target_name() {
    let input = "/* Begin PBXTargetDependency section */\n\
        \t\tBBBBBBBBBBBBBBBBBBBBBBBB /* PBXTargetDependency */ = {\n\
        \t\t\tisa = PBXTargetDependency;\n\
        \t\t\ttarget = CCCCCCCCCCCCCCCCCCCCCCCC /* ZebraApp */;\n\
        \t\t\ttargetProxy = DDDDDDDDDDDDDDDDDDDDDDDD /* PBXContainerItemProxy */;\n\
        \t\t};\n\
        \t\tAAAAAAAAAAAAAAAAAAAAAAAA /* PBXTargetDependency */ = {\n\
        \t\t\tisa = PBXTargetDependency;\n\
        \t\t\ttarget = EEEEEEEEEEEEEEEEEEEEEEEE /* AlphaApp */;\n\
        \t\t\ttargetProxy = FFFFFFFFFFFFFFFFFFFFFFFF /* PBXContainerItemProxy */;\n\
        \t\t};\n\
        /* End PBXTargetDependency section */\n";
    let (out, stats) = sort(input);
    let pos_alpha = out.find("AlphaApp").unwrap();
    let pos_zebra = out.find("ZebraApp").unwrap();
    assert!(pos_alpha < pos_zebra, "AlphaApp dependency should sort before ZebraApp");
    assert_eq!(stats.pbx_target_dependencies_sorted, 1);
}
