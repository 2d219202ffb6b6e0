struct VS_OUT {
    float4 pos : SV_POSITION;
    float2 uv  : TEXCOORD0;
};

VS_OUT main(uint id : SV_VertexID) {
    float2 uv = float2(id & 1, id >> 1);
    float3 worldPos = float3(
        (uv.x - camU) * 2.0 * aspect * planeScale,
        liftY,
        (camV - uv.y) * 2.0 * planeScale
    );
    VS_OUT o;
    o.pos = mul(viewProj, float4(worldPos, 1.0));
    o.uv = uv;
    return o;
}
