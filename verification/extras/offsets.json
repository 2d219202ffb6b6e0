{
  "functions": {
    "ENTITY_RENDERER_PREPARE": ["?prepare@EntityRenderer", 6646480],
    "GAME_RENDERER_RENDER": ["?render@GameRenderer@@", 6665152],
    "GAME_RENDERER_ACK_RESIZE": ["?acknowledgeResize@GameRenderer@@", 6666288],
    "CREATE_RENDER_PARAMS": ["?createRenderParameters@GameView@@", 1095664],
    "RP_CENTER_ON": ["?centerOn@RenderParameters@@", 6826528],
    "GCEF_SET_SIZE": ["?setSize@GarbageCollectableEngineFramebuffers@@", 8054832],
    "DRAW_ENTITIES": ["?drawEntities@DrawEngine@@", 6551296],
    "DCB_FLUSH": ["?flush@DrawCommandBatch@@", 6526784],
    "DQ_DRAW_VEC": ["?draw@DrawQueue@@QEAAXAEBVSprite@@AEBVMapPosition@@VDrawingFlags@@W4Enum@RenderLayer@@AEBVVector", 6570688],
    "DQ_DRAW_PAIR": ["?draw@DrawQueue@@QEAAXAEBVSprite@@AEBVMapPosition@@VDrawingFlags@@W4Enum@RenderLayer@@AEBU", 6571568],
    "DQ_DRAW_TINTED": ["?drawTinted@DrawQueue@@", 6580672],
    "DQ_DRAW_ROTATED": ["?drawRotated@DrawQueue@@", 6583296],
    "DQ_DRAW_ROTATED_TINTED": ["?drawRotatedTinted@DrawQueue@@", 6599728],
    "DQ_DRAW_ROTATED_WITHOUT_TINT": ["?drawRotatedWithoutTint@DrawQueue@@", 6582480],
    "DQ_DRAW_SHIFTED_ROT": ["?drawShiftedBeforeRotatedWithoutTint@DrawQueue@@QEAAXAEBVSprite", 6594224],
    "DQ_DRAW_SHIFTED_ROT_PRECISE": ["?drawShiftedBeforeRotatedWithoutTintPrecise@DrawQueue@@", 6595456],
    "DQ_DRAW_SCALED_ROTATED": ["?drawScaledRotated@DrawQueue@@", 6598832],
    "PLACE_SPRITE": ["", 6931216],
    "COMPUTE_WALK_DIR": ["?computeWalkingDirectionFromPlayerInputs@PlayerInputSource@@", 11099024],
    "GET_MAP_POSITION": ["?getMapPosition@GameView@@QEBA?AVMapPosition@@VPixelPosition@@@Z", 1107808],
    "CHARACTER_DRAW": ["?draw@Character@@UEBAXAEAVDrawQueue@@@Z", 3619744],
    "CAR_DRAW": ["?draw@Car@@UEBAXAEAVDrawQueue@@@Z", 3479104],
    "LOCOMOTIVE_DRAW": ["?draw@Locomotive@@UEBAXAEAVDrawQueue@@@Z", 4594224],
    "CARGO_WAGON_DRAW": ["?draw@CargoWagon@@UEBAXAEAVDrawQueue@@@Z", 3577296],
    "ROLLING_STOCK_DRAW": ["?draw@RollingStock@@UEBAXAEAVDrawQueue@@@Z", 5192368],
    "SPIDER_VEHICLE_DRAW": ["?draw@SpiderVehicle@@UEBAXAEAVDrawQueue@@@Z", 5368992],
    "UNIT_DRAW": ["?draw@Unit@@UEBAXAEAVDrawQueue@@@Z", 5635152],
    "SPIDER_UNIT_DRAW": ["?draw@SpiderUnit@@UEBAXAEAVDrawQueue@@@Z", 5348080],
    "SEGMENTED_UNIT_DRAW": ["?draw@SegmentedUnit@@UEBAXAEAVDrawQueue@@@Z", 5720992],
    "SEGMENT_DRAW": ["?draw@Segment@@UEBAXAEAVDrawQueue@@@Z", 5713792],
    "COMBAT_ROBOT_DRAW": ["?draw@CombatRobot@@UEBAXAEAVDrawQueue@@@Z", 3740224],
    "THRUSTER_DRAW": ["?draw@Thruster@@UEBAXAEAVDrawQueue@@@Z", 5457600],
    "ROBOT_LOGISTIC_DRAW": ["?draw@RobotWithLogisticInterface@@UEBAXAEAVDrawQueue@@@Z", 5071328],
    "SOLAR_PANEL_DRAW": ["?draw@SolarPanel@@UEBAXAEAVDrawQueue@@@Z", 5255760],
    "ROCKET_SILO_DRAW": ["?draw@RocketSilo@@UEBAXAEAVDrawQueue@@@Z", 5106560],
    "SPLITTER_DRAW_BASE": ["?drawBase@Splitter@@", 5410016],
    "LANE_SPLITTER_DRAW_BASE": ["?drawBase@LaneSplitter@@", 4514960],
    "UG_BELT_DRAW_BASE": ["?drawBase@UndergroundBelt@@", 5605856],
    "INSERTER_DRAW": ["?draw@Inserter@@UEBAXAEAVDrawQueue@@@Z", 4382544],
    "PIPE_TO_GROUND_DRAW": ["?draw@PipeToGround@@UEBAXAEAVDrawQueue@@@Z", 4731072],
    "PIPE_DRAW": ["?draw@Pipe@@UEBAXAEAVDrawQueue@@@Z", 4721936],
    "MAP_SAVE": ["?save@Map@@QEBAXAEAVMapSerialiser@@", 11922736],
    "RS_DIR_PIC_INDEX": ["?getDirectionPictureIndex@RotatedSprite@@", 6880368],
    "ARI_FRAME_INDEX": ["?getFrameIndexForOrientation@AnimationRotationIndex@@", 16078432],
    "SPRITE_NWAY4_DRAW": ["?draw@?$SpriteNWay@$03@@", 17325952],
    "PIPE_GET_SPRITE_GROUP": ["?getSpriteGroup@Pipe@@", 4721536],
    "ASSEMBLING_MACHINE_DRAW": ["?draw@AssemblingMachine@@UEBAXAEAVDrawQueue@@@Z", 3288000],
    "FURNACE_DRAW": ["?draw@Furnace@@UEBAXAEAVDrawQueue@@@Z", 4241968],
    "MINING_DRILL_DRAW": ["?draw@MiningDrill@@UEBAXAEAVDrawQueue@@@Z", 4646928],
    "TURRET_DRAW": ["?draw@Turret@@UEBAXAEAVDrawQueue@@@Z", 5560096],
    "AMMO_TURRET_DRAW": ["?draw@AmmoTurret@@UEBAXAEAVDrawQueue@@@Z", 3212720],
    "ENTITY_DTOR": ["??1Entity@@UEAA@XZ", 3944512],
    "WV_DRAW_CRAFTING_MACHINE": ["?drawCraftingMachine@WorkingVisualisations@@", 7183600],
    "WV_DRAW_MINING_DRILL": ["?drawMiningDrill@WorkingVisualisations@@", 7184544],
    "ENTITY_GET_PROTOTYPE": ["?getPrototype@Entity@@QEBAPEBVEntityPrototype@@XZ", 255504],
    "ENTITY_GET_SURFACE": ["?getSurface@Entity@@QEBAAEBVSurface@@XZ", 256128],
    "DAYTIME_GET_DARKNESS": ["?getDarkness@DayTime@@", 11848112],
    "DRAW_ITEM_STACK": ["?drawItemStack@ItemStackPainter@@", 1994352],
    "TB_DRAW_ITEMS": ["?drawItems@TransportBelt@@", 5515392],
    "DRAW_SCALED_TINTED": ["?drawScaledTinted@DrawQueue@@", 6590576],
    "UB_DRAW_ITEMS": ["?drawItems@UndergroundBelt@@", 5606640],
    "SPLITTER_DRAW_ITEMS": ["?drawItems@Splitter@@", 5412832],
    "TBC_GET_DIRECTION": ["?getDirection@TransportBeltConnectable@@", 472560],
    "ITEM_ENTITY_DRAW": ["?draw@ItemEntity@@UEBAXAEAVDrawQueue@@@Z", 4445920],
    "ITEM_DRAW_ON_MAP": ["?drawItemOnMap@Item@@", 11269616],
    "ITEM_DRAW_INTERNAL": ["?drawInternal@ItemStack@@", 11314560],
    "WIRE_DRAW_SEGMENT": ["?draw@WireRendering@@SAXAEAVDrawQueue@@AEBVMapPosition@@", 16772736],
    "WIRE_DRAW_WIRES": ["?drawWires@WireRendering@@", 16771008],
    "EWH_DIE": ["?die@EntityWithHealth@@", 4109920],
    "ENTITY_BUTTON_DRAW_A": ["?drawEntity@?$EntityButtonBase@VEmptyWidget@agui@@@@MEAAXAEAVDrawQueue@@@Z", 18526960],
    "ENTITY_BUTTON_DRAW_B": ["?drawEntity@?$EntityButtonBase@VButton@agui@@@@MEAAXAEAVDrawQueue@@@Z", 18530352],
    "ROCKET_DRAW": ["?draw@RocketSiloRocket@@UEBAXAEAVDrawQueue@@@Z", 5148048],
    "ROCKET_CROPPED_SPRITE": ["?drawRocketCroppedSprite@RocketSiloRocket@@", 5147472],
    "DRAW_ENTITY_TO_BE_BUILT": ["?drawEntityToBeBuilt@BuildingRenderer@@CA", 6173840],
    "EWH_DECON_MARKER_POS": ["?getDeconstructionMarkerPosition@EntityWithHealth@@", 256752],
    "TURRET_GET_ORIENTATION": ["?getOrientation@Turret@@UEBA?AVRealOrientation@@XZ", 877440],
    "ENTITY_GET_DIRECTION": ["?getDirection@Entity@@UEBA?AVDirection@@XZ", 214112],
    "ENTITY_GET_ORIENTATION": ["?getOrientation@Entity@@UEBA?AVRealOrientation@@XZ", 255808],
    "CHARACTER_DRAW_INTERNAL": ["?drawInternal@Character@@AEBAXAEAVDrawQueue@@_N@Z", 3619792],
    "CHARACTER_GET_DIRECTION": ["?getDirection@Character@@UEBA?AVDirection@@XZ", 3652704],
    "CHARACTER_GET_PLAYER_COLOR": ["?getPlayerColor@Character@@QEBA?AVColor@@XZ", 3672464],
    "MANUAL_MINER_PERFORM": ["?performMining@ManualMiner@@QEAA_NXZ", 1424816],
    "SHOOTER_SHOOT_CHARACTER": ["??$shoot@VCharacter@@@ShooterLogic@@SA_NAEAVCharacter@@@Z", 19373952]
  },
  "draws": [
    {"symbol": "?draw@Lab@@UEBAXAEAVDrawQueue@@@Z", "rva": 4478032},
    {"symbol": "?draw@Boiler@@UEBAXAEAVDrawQueue@@@Z", "rva": 3420624, "direction": "?getDirection@Boiler@@"},
    {"symbol": "?draw@Generator@@UEBAXAEAVDrawQueue@@@Z", "rva": 4320192, "direction": "?getDirection@Generator@@"},
    {"symbol": "?draw@Inserter@@UEBAXAEAVDrawQueue@@@Z", "rva": 4382544, "direction": "?getDirection@Inserter@@", "progress": "?getActivityProgress@Inserter@@"},
    {"symbol": "?draw@ElectricPole@@UEBAXAEAVDrawQueue@@@Z", "rva": 3903728, "wires": 184},
    {"symbol": "?draw@ContainerEntity@@UEBAXAEAVDrawQueue@@@Z", "rva": 3797040},
    {"symbol": "?draw@LogisticContainer@@UEBAXAEAVDrawQueue@@@Z", "rva": 4612464},
    {"symbol": "?draw@SolarPanel@@UEBAXAEAVDrawQueue@@@Z", "rva": 5255760},
    {"symbol": "?draw@Accumulator@@UEBAXAEAVDrawQueue@@@Z", "rva": 3135296, "activity": "?getActivityRate@Accumulator@@"},
    {"symbol": "?draw@Beacon@@UEBAXAEAVDrawQueue@@@Z", "rva": 3381632},
    {"symbol": "?draw@Roboport@@UEBAXAEAVDrawQueue@@@Z", "rva": 5036992},
    {"symbol": "?draw@Radar@@UEBAXAEAVDrawQueue@@@Z", "rva": 4821280, "animated": true},
    {"symbol": "?draw@Wall@@UEBAXAEAVDrawQueue@@@Z", "rva": 5691200},
    {"symbol": "?draw@Gate@@UEBAXAEAVDrawQueue@@@Z", "rva": 4303904, "direction": "?getDirection@Gate@@", "gate": 260},
    {"symbol": "?draw@StorageTank@@UEBAXAEAVDrawQueue@@@Z", "rva": 5445920, "direction": "?getDirection@StorageTank@@"},
    {"symbol": "?draw@Pump@@UEBAXAEAVDrawQueue@@@Z", "rva": 4798672, "direction": "?getDirection@Pump@@"},
    {"symbol": "?draw@OffshorePump@@UEBAXAEAVDrawQueue@@@Z", "rva": 4699296, "direction": "?getDirection@OffshorePump@@"},
    {"symbol": "?draw@Reactor@@UEBAXAEAVDrawQueue@@@Z", "rva": 4993248},
    {"symbol": "?draw@TrainStop@@UEBAXAEAVDrawQueue@@@Z", "rva": 5491136, "direction": "?getDirection@TrainStop@@"},
    {"symbol": "?draw@Lamp@@UEBAXAEAVDrawQueue@@@Z", "rva": 4497152},
    {"symbol": "?draw@ProgrammableSpeaker@@UEBAXAEAVDrawQueue@@@Z", "rva": 4757360},
    {"symbol": "?draw@ArithmeticCombinator@@UEBAXAEAVDrawQueue@@@Z", "rva": 3220272, "direction": "?getDirection@Combinator@@"},
    {"symbol": "?draw@DeciderCombinator@@UEBAXAEAVDrawQueue@@@Z", "rva": 3871472, "direction": "?getDirection@Combinator@@"},
    {"symbol": "?draw@ConstantCombinator@@UEBAXAEAVDrawQueue@@@Z", "rva": 3761632, "direction": "?getDirection@ConstantCombinator@@"},
    {"symbol": "?draw@PowerSwitch@@UEBAXAEAVDrawQueue@@@Z", "rva": 4748320},
    {"symbol": "?draw@ResourceEntity@@UEBAXAEAVDrawQueue@@@Z", "rva": 5013184},
    {"symbol": "?draw@Tree@@UEBAXAEAVDrawQueue@@@Z", "rva": 5545712},
    {"symbol": "?draw@SimpleEntity@@UEBAXAEAVDrawQueue@@@Z", "rva": 5226288},
    {"symbol": "?draw@Pipe@@UEBAXAEAVDrawQueue@@@Z", "rva": 4721936},
    {"symbol": "?draw@PipeToGround@@UEBAXAEAVDrawQueue@@@Z", "rva": 4731072, "direction": "?getDirection@PipeToGround@@"},
    {"symbol": "?draw@HeatPipe@@UEBAXAEAVDrawQueue@@@Z", "rva": 4340032},
    {"symbol": "?draw@TransportBeltConnectable@@UEBAXAEAVDrawQueue@@@Z", "rva": 5528048, "direction": "?getDirection@TransportBeltConnectable@@"},
    {"symbol": "?drawBase@TransportBelt@@UEBAXAEAVDrawQueue@@@Z", "rva": 5514560, "direction": "?getDirection@TransportBeltConnectable@@"},
    {"symbol": "?drawBase@UndergroundBelt@@UEBAXAEAVDrawQueue@@@Z", "rva": 5605856, "direction": "?getDirection@TransportBeltConnectable@@"},
    {"symbol": "?drawBase@Splitter@@UEBAXAEAVDrawQueue@@@Z", "rva": 5410016, "direction": "?getDirection@TransportBeltConnectable@@"},
    {"symbol": "?draw@Car@@UEBAXAEAVDrawQueue@@@Z", "rva": 3479104, "oriented": true, "orientation": "?getOrientation@Vehicle@@", "turret": "?getRelativeTurretOrientation@Car@@"},
    {"symbol": "?draw@Locomotive@@UEBAXAEAVDrawQueue@@@Z", "rva": 4594224, "oriented": true, "orientation": "?getOrientation@Vehicle@@"},
    {"symbol": "?draw@CargoWagon@@UEBAXAEAVDrawQueue@@@Z", "rva": 3577296, "oriented": true, "orientation": "?getOrientation@Vehicle@@"},
    {"symbol": "?draw@RollingStock@@UEBAXAEAVDrawQueue@@@Z", "rva": 5192368, "oriented": true, "orientation": "?getOrientation@Vehicle@@"},
    {"symbol": "?draw@RobotWithLogisticInterface@@UEBAXAEAVDrawQueue@@@Z", "rva": 5071328, "oriented": true, "orientation": "?getOrientation@RobotWithLogisticInterface@@"},
    {"symbol": "?draw@Unit@@UEBAXAEAVDrawQueue@@@Z", "rva": 0, "oriented": true, "orientation": "?getOrientation@Unit@@UEBA?AVRealOrientation@@XZ"}
  ]
}
