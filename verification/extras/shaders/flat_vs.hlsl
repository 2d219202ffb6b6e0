struct VS_OUT {
    float4 pos : SV_POSITION;
    float2 uv  : TEXCOORD0;
};

VS_OUT main(uint id : SV_VertexID) {
    float2 uv = float2(id & 1, id >> 1);
    float2 ndc = uv * 2.0 - 1.0;
    ndc.y = -ndc.y;
    VS_OUT o;
    o.pos = float4(ndc, 0, 1);
    o.uv = uv;
    return o;
}
